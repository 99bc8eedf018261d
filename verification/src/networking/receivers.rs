//! The receiving side of message streams: a decoder that cuts each stream
//! into frames as its bytes arrive, and the queues that hold the payloads it
//! found until they are decoded.

use std::collections::{HashMap, VecDeque};
use vstd::prelude::*;
use vstd::slice::slice_subrange;
use vstd::std_specs::iter::IteratorSpec;
use crate::networking::stream_headers::{RecvStreamHeaders, RecvStreamHeadersView};
use crate::networking::{
    lemma_header_into_tag, Dir, ReadStep, StreamHeader, StreamId, StreamRead, StreamReadError,
};
use crate::networking::frames::{
    all_fit, bytes_wanted, frame_bytes, frames_bytes, joined, lemma_parse_append,
    lemma_parse_frames_bytes, lemma_parse_more_frame, lemma_parse_more_unfinished,
    lemma_payloads_of_add, lemma_rest_unfinished, parse_frames, payloads_of, unfinished, Frame,
    Parsed,
};
use crate::networking::u16_reader::{
    be_bytes, lemma_be_bytes_of_value, lemma_be_value_of_bytes, U16Reader,
};

verus! {

broadcast use vstd::std_specs::hash::group_hash_axioms;

/// Where the decoder stands within the frame that it is reading.
#[allow(inconsistent_fields)]
enum MessageRecvBufferState {
    ReadingId { buffer: U16Reader },
    ReadingLength { message_id: u16, buffer: U16Reader },
    ReadingMessage { message_id: u16, length: u16, buffer: Vec<u8> },
}

impl MessageRecvBufferState {
    /// Each phase holds less than it is waiting for.
    spec fn wf(&self) -> bool {
        match self {
            MessageRecvBufferState::ReadingId { buffer } => buffer@.len() < 2,
            MessageRecvBufferState::ReadingLength { buffer, .. } => buffer@.len() < 2,
            MessageRecvBufferState::ReadingMessage { length, buffer, .. } => buffer@.len()
                < *length,
        }
    }

    /// The bytes of the frame in progress that have arrived.
    spec fn pending(&self) -> Seq<u8> {
        match self {
            MessageRecvBufferState::ReadingId { buffer } => buffer@,
            MessageRecvBufferState::ReadingLength { message_id, buffer } => be_bytes(*message_id)
                + buffer@,
            MessageRecvBufferState::ReadingMessage { message_id, length, buffer } => be_bytes(
                *message_id,
            ) + be_bytes(*length) + buffer@,
        }
    }

    proof fn lemma_pending_unfinished(&self)
        requires
            self.wf(),
        ensures
            unfinished(self.pending()),
    {
        match self {
            MessageRecvBufferState::ReadingMessage { message_id, length, buffer } => {
                lemma_be_value_of_bytes(*length);
                let p = self.pending();
                assert(p[2] == be_bytes(*length)[0]);
                assert(p[3] == be_bytes(*length)[1]);
            },
            _ => {},
        }
    }

    fn new() -> (state: Self)
        ensures
            state.wf(),
            state.pending() == Seq::<u8>::empty(),
    {
        MessageRecvBufferState::ReadingId { buffer: U16Reader::new() }
    }

    fn bytes_needed(&self) -> (needed: usize)
        requires
            self.wf(),
        ensures
            needed == bytes_wanted(self.pending()),
            needed > 0,
    {
        match self {
            MessageRecvBufferState::ReadingId { buffer } => buffer.bytes_needed(),
            MessageRecvBufferState::ReadingLength { buffer, .. } => buffer.bytes_needed(),
            MessageRecvBufferState::ReadingMessage { length, buffer, .. } => {
                proof {
                    lemma_be_value_of_bytes(*length);
                    let p = self.pending();
                    assert(p[2] == be_bytes(*length)[0]);
                    assert(p[3] == be_bytes(*length)[1]);
                }
                *length as usize - buffer.len()
            },
        }
    }

    /// Takes a chunk in, however long: completes as many frames as it holds,
    /// queues their payloads, and keeps what is left as the start of the
    /// next frame. Returns where the decoder then stands.
    fn feed(self, chunk: &[u8], messages: &mut HashMap<u16, VecDeque<Vec<u8>>>) -> (next: Self)
        requires
            self.wf(),
        ensures
            next.wf(),
            next.pending() == parse_frames(self.pending() + chunk@).rest,
            forall|id: u16|
                queue_view(final(messages)@, id) == queue_view(old(messages)@, id) + payloads_of(
                    parse_frames(self.pending() + chunk@).frames,
                    id,
                ),
    {
        let mut state = self;
        let mut used: usize = 0;
        let ghost mut found: Seq<Frame> = Seq::empty();
        proof {
            self.lemma_pending_unfinished();
            assert(self.pending() + chunk@.take(0) =~= self.pending());
            assert forall|id: u16|
                queue_view(messages@, id) == queue_view(old(messages)@, id) + payloads_of(
                    found,
                    id,
                ) by {
                assert(queue_view(messages@, id) + Seq::<Seq<u8>>::empty() =~= queue_view(
                    messages@,
                    id,
                ));
            }
        }
        while used < chunk.len()
            invariant
                used <= chunk@.len(),
                state.wf(),
                parse_frames(self.pending() + chunk@.take(used as int)) == (Parsed {
                    frames: found,
                    rest: state.pending(),
                }),
                forall|id: u16|
                    queue_view(messages@, id) == queue_view(old(messages)@, id) + payloads_of(
                        found,
                        id,
                    ),
            decreases chunk@.len() - used,
        {
            let ghost before = self.pending() + chunk@.take(used as int);
            let ghost start = used;
            let available: usize = chunk.len() - used;
            proof {
                state.lemma_pending_unfinished();
            }
            match state {
                MessageRecvBufferState::ReadingId { mut buffer } => {
                    let needed: usize = buffer.bytes_needed();
                    let take: usize = if needed < available {
                        needed
                    } else {
                        available
                    };
                    buffer.write(slice_subrange(chunk, used, used + take));
                    used = used + take;
                    let ghost piece = chunk@.subrange(start as int, used as int);
                    proof {
                        assert(before + piece =~= self.pending() + chunk@.take(used as int));
                        lemma_parse_more_unfinished(before, piece);
                    }
                    match buffer.finish() {
                        Some(message_id) => {
                            proof {
                                lemma_be_bytes_of_value(buffer@[0], buffer@[1]);
                                assert(be_bytes(message_id) + Seq::<u8>::empty() =~= buffer@);
                            }
                            state = MessageRecvBufferState::ReadingLength {
                                message_id,
                                buffer: U16Reader::new(),
                            };
                        },
                        None => {
                            state = MessageRecvBufferState::ReadingId { buffer };
                        },
                    }
                },
                MessageRecvBufferState::ReadingLength { message_id, mut buffer } => {
                    let needed: usize = buffer.bytes_needed();
                    let take: usize = if needed < available {
                        needed
                    } else {
                        available
                    };
                    let ghost held = buffer@;
                    buffer.write(slice_subrange(chunk, used, used + take));
                    used = used + take;
                    let ghost piece = chunk@.subrange(start as int, used as int);
                    proof {
                        assert(before + piece =~= self.pending() + chunk@.take(used as int));
                        assert((be_bytes(message_id) + held) + piece =~= be_bytes(message_id)
                            + buffer@);
                    }
                    match buffer.finish() {
                        Some(length) => {
                            proof {
                                lemma_be_bytes_of_value(buffer@[0], buffer@[1]);
                                assert(be_bytes(length) =~= buffer@);
                            }
                            if length == 0 {
                                let payload: Vec<u8> = Vec::new();
                                proof {
                                    let frame = Frame { message_id, payload: payload@ };
                                    assert(frame_bytes(frame) =~= be_bytes(message_id) + buffer@);
                                    lemma_parse_more_frame(before, piece, frame);
                                    lemma_queued_push(
                                        queue_view(old(messages)@, message_id),
                                        found,
                                        frame,
                                    );
                                    found = found.push(frame);
                                }
                                enqueue(messages, message_id, payload);
                                state = MessageRecvBufferState::new();
                            } else {
                                proof {
                                    lemma_be_value_of_bytes(length);
                                    let all = be_bytes(message_id) + be_bytes(length);
                                    assert(all[2] == be_bytes(length)[0]);
                                    assert(all[3] == be_bytes(length)[1]);
                                    lemma_parse_more_unfinished(before, piece);
                                    assert(all + Seq::<u8>::empty() =~= all);
                                }
                                state = MessageRecvBufferState::ReadingMessage {
                                    message_id,
                                    length,
                                    buffer: Vec::new(),
                                };
                            }
                        },
                        None => {
                            proof {
                                lemma_parse_more_unfinished(before, piece);
                            }
                            state = MessageRecvBufferState::ReadingLength { message_id, buffer };
                        },
                    }
                },
                MessageRecvBufferState::ReadingMessage { message_id, length, mut buffer } => {
                    let needed: usize = length as usize - buffer.len();
                    let take: usize = if needed < available {
                        needed
                    } else {
                        available
                    };
                    let ghost held = buffer@;
                    let end: usize = used + take;
                    while used < end
                        invariant
                            start <= used <= end <= chunk@.len(),
                            buffer@ == held + chunk@.subrange(start as int, used as int),
                        decreases end - used,
                    {
                        buffer.push(chunk[used]);
                        used = used + 1;
                        assert(chunk@.subrange(start as int, used as int) =~= chunk@.subrange(
                            start as int,
                            used - 1,
                        ).push(chunk@[used - 1]));
                    }
                    let ghost piece = chunk@.subrange(start as int, used as int);
                    let ghost head = be_bytes(message_id) + be_bytes(length);
                    proof {
                        assert(before + piece =~= self.pending() + chunk@.take(used as int));
                        assert((head + held) + piece =~= head + buffer@);
                        lemma_be_value_of_bytes(length);
                        assert((head + buffer@)[2] == be_bytes(length)[0]);
                        assert((head + buffer@)[3] == be_bytes(length)[1]);
                    }
                    if buffer.len() == length as usize {
                        proof {
                            let frame = Frame { message_id, payload: buffer@ };
                            lemma_parse_more_frame(before, piece, frame);
                            lemma_queued_push(
                                queue_view(old(messages)@, message_id),
                                found,
                                frame,
                            );
                            found = found.push(frame);
                        }
                        enqueue(messages, message_id, buffer);
                        state = MessageRecvBufferState::new();
                    } else {
                        proof {
                            lemma_parse_more_unfinished(before, piece);
                        }
                        state = MessageRecvBufferState::ReadingMessage { message_id, length, buffer };
                    }
                },
            }
        }
        proof {
            assert(chunk@.take(used as int) =~= chunk@);
        }
        state
    }
}

/// What the message streams of one connection hold: for each stream the bytes
/// of the frame that is still arriving, and for each message type the payloads
/// that are complete and not yet taken, oldest first.
#[verifier::ext_equal]
pub struct MessageRecvBuffersView {
    pub streams: Map<StreamId, Seq<u8>>,
    pub queued: Map<u16, Seq<Seq<u8>>>,
}

impl MessageRecvBuffersView {
    /// No stream holds a whole frame back, and every type has its queue.
    pub open spec fn wf(self) -> bool {
        &&& forall|stream: StreamId| #[trigger]
            self.streams.contains_key(stream) ==> unfinished(self.streams[stream])
        &&& forall|id: u16| #[trigger] self.queued.contains_key(id)
    }

    /// The buffers after `bytes` of `stream` were taken in: they complete
    /// frames, whose payloads join the queues of their types, and what is
    /// left of them is the start of the stream's next frame. A stream that is
    /// not read here gives nothing.
    pub open spec fn fed(self, stream: StreamId, bytes: Seq<u8>) -> Self {
        if !self.streams.contains_key(stream) {
            self
        } else {
            let parsed = parse_frames(self.streams[stream] + bytes);
            MessageRecvBuffersView {
                streams: self.streams.insert(stream, parsed.rest),
                queued: Map::total(|id: u16| self.queued[id] + payloads_of(parsed.frames, id)),
            }
        }
    }

    /// The buffers after the chunks of `stream` were taken in one by one.
    pub open spec fn fed_all(self, stream: StreamId, chunks: Seq<Seq<u8>>) -> Self
        decreases chunks.len(),
    {
        if chunks.len() == 0 {
            self
        } else {
            self.fed(stream, chunks.first()).fed_all(stream, chunks.drop_first())
        }
    }

    /// The buffers after `stream` was let go, with the frame it had begun.
    pub open spec fn dropping(self, stream: StreamId) -> Self {
        MessageRecvBuffersView { streams: self.streams.remove(stream), queued: self.queued }
    }

    /// What is to be done with `stream` once `read` was taken in.
    pub open spec fn step(self, stream: StreamId, read: StreamRead) -> ReadStep {
        if !self.streams.contains_key(stream) {
            ReadStep::Untracked
        } else {
            match read {
                Ok(Some(_)) => ReadStep::Continue,
                Ok(None) => ReadStep::Finished,
                Err(StreamReadError::Blocked) => ReadStep::Blocked,
                Err(StreamReadError::Reset(code)) => ReadStep::Reset(code),
                Err(StreamReadError::Other) => ReadStep::Failed,
            }
        }
    }

    /// The buffers after the streams in `claimed` were taken over: each is
    /// read from the start of its first frame; nothing else changes.
    pub open spec fn claiming(self, claimed: Set<StreamId>) -> Self {
        MessageRecvBuffersView {
            streams: self.streams.union_prefer_right(
                Map::new(|stream: StreamId| claimed.contains(stream), |stream: StreamId| Seq::empty()),
            ),
            queued: self.queued,
        }
    }

    /// The buffers after the payloads queued under `message_id` were taken.
    pub open spec fn taking(self, message_id: u16) -> Self {
        MessageRecvBuffersView {
            streams: self.streams,
            queued: self.queued.insert(message_id, Seq::empty()),
        }
    }

    /// The buffers after `read` of `stream` was taken in. Bytes are fed to
    /// the stream's decoder; the end of the stream and a reset let the stream
    /// go; anything else changes nothing, and no other stream is touched.
    pub open spec fn received(self, stream: StreamId, read: StreamRead) -> Self {
        if !self.streams.contains_key(stream) {
            self
        } else {
            match read {
                Ok(Some(chunk)) => self.fed(stream, chunk@),
                Ok(None) => self.dropping(stream),
                Err(StreamReadError::Reset(_)) => self.dropping(stream),
                Err(_) => self,
            }
        }
    }
}

/// Feeding a stream's bytes in two parts is feeding them at once.
pub proof fn lemma_fed_append(
    buffers: MessageRecvBuffersView,
    stream: StreamId,
    first: Seq<u8>,
    second: Seq<u8>,
)
    ensures
        buffers.fed(stream, first).fed(stream, second) == buffers.fed(stream, first + second),
{
    if buffers.streams.contains_key(stream) {
        let pending = buffers.streams[stream];
        let once = buffers.fed(stream, first);
        let twice = once.fed(stream, second);
        let whole = buffers.fed(stream, first + second);
        lemma_parse_append(pending + first, second);
        assert((pending + first) + second =~= pending + (first + second));
        assert(twice.streams =~= whole.streams);
        assert forall|id: u16| twice.queued[id] == whole.queued[id] by {
            let early = parse_frames(pending + first).frames;
            let late = parse_frames(once.streams[stream] + second).frames;
            lemma_payloads_of_add(early, late, id);
            assert((buffers.queued[id] + payloads_of(early, id)) + payloads_of(late, id)
                =~= buffers.queued[id] + (payloads_of(early, id) + payloads_of(late, id)));
        }
        assert(twice.queued =~= whole.queued);
    }
}

/// However the bytes of a stream are cut into chunks, the buffers end up as
/// if the bytes had come at once: with the same payloads queued under each
/// type in the same order, and the same bytes of an unfinished frame.
pub proof fn lemma_fed_in_chunks(
    buffers: MessageRecvBuffersView,
    stream: StreamId,
    chunks: Seq<Seq<u8>>,
)
    requires
        buffers.wf(),
    ensures
        buffers.fed_all(stream, chunks) == buffers.fed(stream, joined(chunks)),
        buffers.fed_all(stream, chunks).wf(),
    decreases chunks.len(),
{
    lemma_fed_wf(buffers, stream, joined(chunks));
    if chunks.len() == 0 {
        if buffers.streams.contains_key(stream) {
            let pending = buffers.streams[stream];
            assert(pending + joined(chunks) =~= pending);
            let same = buffers.fed(stream, joined(chunks));
            assert(same.streams =~= buffers.streams);
            assert forall|id: u16| same.queued[id] == buffers.queued[id] by {
                assert(buffers.queued[id] + Seq::<Seq<u8>>::empty() =~= buffers.queued[id]);
            }
            assert(same.queued =~= buffers.queued);
        }
    } else {
        let once = buffers.fed(stream, chunks.first());
        lemma_fed_wf(buffers, stream, chunks.first());
        lemma_fed_in_chunks(once, stream, chunks.drop_first());
        lemma_fed_append(buffers, stream, chunks.first(), joined(chunks.drop_first()));
    }
}

/// Feeding keeps the buffers well formed.
pub proof fn lemma_fed_wf(buffers: MessageRecvBuffersView, stream: StreamId, bytes: Seq<u8>)
    requires
        buffers.wf(),
    ensures
        buffers.fed(stream, bytes).wf(),
{
    if buffers.streams.contains_key(stream) {
        lemma_rest_unfinished(buffers.streams[stream] + bytes);
    }
}

/// Round trip on one stream: when the bytes of a run of frames whose
/// payloads fit reach a stream that stands at the start of a frame, cut into
/// chunks in any way, the payloads of each type join the queue of that type,
/// all of them and in the order of the frames, and the stream stands at the
/// start of a frame again.
pub proof fn lemma_frames_arrive(
    buffers: MessageRecvBuffersView,
    stream: StreamId,
    frames: Seq<Frame>,
    chunks: Seq<Seq<u8>>,
)
    requires
        buffers.wf(),
        all_fit(frames),
        buffers.streams.contains_key(stream),
        buffers.streams[stream].len() == 0,
        joined(chunks) == frames_bytes(frames),
    ensures
        buffers.fed_all(stream, chunks).streams == buffers.streams,
        forall|id: u16|
            #[trigger] buffers.fed_all(stream, chunks).queued[id] == buffers.queued[id]
                + payloads_of(frames, id),
{
    lemma_fed_in_chunks(buffers, stream, chunks);
    lemma_parse_frames_bytes(frames);
    assert(buffers.streams[stream] =~= Seq::<u8>::empty());
    assert(buffers.streams[stream] + frames_bytes(frames) =~= frames_bytes(frames));
    assert(buffers.fed(stream, joined(chunks)).streams =~= buffers.streams);
}

/// A stream that was never claimed is not read: whatever a read of it
/// returned, the decoder takes no byte of it and queues nothing. With
/// `claiming` as the only way in, no byte of a stream is taken for a frame
/// before the stream's two header bytes have arrived and spelt the message
/// purpose, and the first byte taken is the first after the header.
pub proof fn lemma_header_precedes_payload(
    headers: RecvStreamHeadersView,
    buffers: MessageRecvBuffersView,
    stream: StreamId,
    read: StreamRead,
)
    ensures
        !buffers.streams.contains_key(stream) ==> buffers.received(stream, read) == buffers
            && buffers.step(stream, read) == ReadStep::Untracked,
        !buffers.streams.contains_key(stream) && buffers.claiming(
            message_streams(headers),
        ).streams.contains_key(stream) ==> {
            &&& headers.streams.contains_key(stream)
            &&& headers.streams[stream].bytes == be_bytes(StreamHeader::Messages.tag())
            &&& buffers.claiming(message_streams(headers)).streams[stream] == Seq::<u8>::empty()
        },
        forall|other: StreamId|
            buffers.received(stream, read).streams.contains_key(other)
                ==> buffers.streams.contains_key(other),
{
}

/// A stream that ends or is reset in the middle of a frame is let go with
/// what it had begun, and the caller is told so, with the reset's code. No
/// other stream and no queue is touched.
pub proof fn lemma_broken_stream_is_let_go(
    buffers: MessageRecvBuffersView,
    stream: StreamId,
    code: u64,
    other: StreamId,
)
    requires
        buffers.streams.contains_key(stream),
        other != stream,
    ensures
        buffers.step(stream, Err(StreamReadError::Reset(code))) == ReadStep::Reset(code),
        buffers.step(stream, Ok(None)) == ReadStep::Finished,
        !buffers.received(stream, Err(StreamReadError::Reset(code))).streams.contains_key(stream),
        !buffers.received(stream, Ok(None)).streams.contains_key(stream),
        buffers.received(stream, Err(StreamReadError::Reset(code))) == buffers.received(
            stream,
            Ok(None),
        ),
        buffers.received(stream, Ok(None)).queued == buffers.queued,
        buffers.received(stream, Ok(None)).streams.contains_key(other)
            == buffers.streams.contains_key(other),
        buffers.streams.contains_key(other) ==> buffers.received(stream, Ok(None)).streams[other]
            == buffers.streams[other],
{
}

/// The payloads queued under `message_id`, oldest first.
spec fn queue_view(messages: Map<u16, VecDeque<Vec<u8>>>, message_id: u16) -> Seq<Seq<u8>> {
    if messages.contains_key(message_id) {
        messages[message_id]@.map_values(|payload: Vec<u8>| payload@)
    } else {
        Seq::empty()
    }
}

/// A queue that has taken the payloads of some frames takes those of one
/// frame more.
proof fn lemma_queued_push(queue: Seq<Seq<u8>>, found: Seq<Frame>, frame: Frame)
    ensures
        (queue + payloads_of(found, frame.message_id)).push(frame.payload) == queue + payloads_of(
            found.push(frame),
            frame.message_id,
        ),
        forall|other: u16|
            other != frame.message_id ==> payloads_of(found.push(frame), other) == payloads_of(
                found,
                other,
            ),
{
    assert(found.push(frame).drop_last() =~= found);
    assert((queue + payloads_of(found, frame.message_id)).push(frame.payload) =~= queue
        + payloads_of(found, frame.message_id).push(frame.payload));
}

/// Puts a payload at the end of the queue of its type.
fn enqueue(messages: &mut HashMap<u16, VecDeque<Vec<u8>>>, message_id: u16, payload: Vec<u8>)
    ensures
        queue_view(final(messages)@, message_id) == queue_view(old(messages)@, message_id).push(
            payload@,
        ),
        forall|other: u16|
            other != message_id ==> queue_view(final(messages)@, other) == queue_view(
                old(messages)@,
                other,
            ),
{
    let mut queue = match messages.remove(&message_id) {
        Some(queue) => queue,
        None => VecDeque::new(),
    };
    let ghost before = queue@;
    queue.push_back(payload);
    proof {
        assert(queue@.map_values(|payload: Vec<u8>| payload@) =~= before.map_values(
            |payload: Vec<u8>| payload@,
        ).push(payload@));
    }
    messages.insert(message_id, queue);
}

/// The message streams of one connection and what has been decoded from them.
pub struct MessageRecvBuffers {
    streams: HashMap<u64, MessageRecvBufferState>,
    messages: HashMap<u16, VecDeque<Vec<u8>>>,
}

impl View for MessageRecvBuffers {
    type V = MessageRecvBuffersView;

    closed spec fn view(&self) -> MessageRecvBuffersView {
        MessageRecvBuffersView {
            streams: Map::new(
                |stream: StreamId| self.streams@.contains_key(stream.0),
                |stream: StreamId| self.streams@[stream.0].pending(),
            ),
            queued: Map::total(|id: u16| queue_view(self.messages@, id)),
        }
    }
}

impl Default for MessageRecvBuffers {
    fn default() -> (buffers: Self)
        ensures
            buffers@.wf(),
            buffers@.streams == Map::<StreamId, Seq<u8>>::empty(),
            buffers@.queued == Map::total(|id: u16| Seq::<Seq<u8>>::empty()),
    {
        MessageRecvBuffers::new()
    }
}

impl MessageRecvBuffers {
    #[verifier::type_invariant]
    spec fn well_formed(&self) -> bool {
        forall|key: u64| self.streams@.contains_key(key) ==> (#[trigger] self.streams@[key]).wf()
    }

    proof fn lemma_view_wf(&self)
        requires
            self.well_formed(),
        ensures
            self@.wf(),
    {
        assert forall|stream: StreamId| #[trigger]
            self@.streams.contains_key(stream) implies unfinished(self@.streams[stream]) by {
            self.streams@[stream.0].lemma_pending_unfinished();
        }
    }

    /// Buffers that read no stream and hold no message.
    pub fn new() -> (buffers: Self)
        ensures
            buffers@.wf(),
            buffers@.streams == Map::<StreamId, Seq<u8>>::empty(),
            buffers@.queued == Map::total(|id: u16| Seq::<Seq<u8>>::empty()),
    {
        let buffers = MessageRecvBuffers { streams: HashMap::new(), messages: HashMap::new() };
        proof {
            assert(buffers@.streams =~= Map::<StreamId, Seq<u8>>::empty());
            assert(buffers@.queued =~= Map::total(|id: u16| Seq::<Seq<u8>>::empty()));
        }
        buffers
    }

    /// How many bytes to ask the transport for when `stream_id` is read next:
    /// what the frame in progress still wants, or nothing for a stream that is
    /// not read here.
    pub fn bytes_needed(&self, stream_id: StreamId) -> (needed: usize)
        ensures
            needed == if self@.streams.contains_key(stream_id) {
                bytes_wanted(self@.streams[stream_id])
            } else {
                0
            },
    {
        proof {
            use_type_invariant(self);
        }
        match self.streams.get(&stream_id.0) {
            Some(state) => state.bytes_needed(),
            None => 0,
        }
    }

    /// Takes in what one read of `stream_id` returned and says what to do with
    /// the stream next.
    pub fn receive(&mut self, stream_id: StreamId, read: StreamRead) -> (step: ReadStep)
        ensures
            step == old(self)@.step(stream_id, read),
            final(self)@ == old(self)@.received(stream_id, read),
            final(self)@.wf(),
    {
        proof {
            use_type_invariant(&*self);
        }
        let mut taken = MessageRecvBuffers::new();
        core::mem::swap(self, &mut taken);
        let MessageRecvBuffers { mut streams, mut messages } = taken;
        let step = match streams.remove(&stream_id.0) {
            None => ReadStep::Untracked,
            Some(state) => match read {
                Ok(Some(chunk)) => {
                    let next = state.feed(chunk.as_slice(), &mut messages);
                    streams.insert(stream_id.0, next);
                    ReadStep::Continue
                },
                Ok(None) => ReadStep::Finished,
                Err(StreamReadError::Blocked) => {
                    streams.insert(stream_id.0, state);
                    ReadStep::Blocked
                },
                Err(StreamReadError::Reset(code)) => ReadStep::Reset(code),
                Err(StreamReadError::Other) => {
                    streams.insert(stream_id.0, state);
                    ReadStep::Failed
                },
            },
        };
        *self = MessageRecvBuffers { streams, messages };
        proof {
            assert(self@.streams =~= old(self)@.received(stream_id, read).streams);
            assert(self@.queued =~= old(self)@.received(stream_id, read).queued);
            use_type_invariant(&*self);
            self.lemma_view_wf();
        }
        step
    }

    /// The streams that are being read, each once, in no particular order.
    pub fn stream_ids(&self) -> (streams: Vec<StreamId>)
        ensures
            streams@.no_duplicates(),
            forall|stream: StreamId| #[trigger]
                streams@.contains(stream) <==> self@.streams.contains_key(stream),
    {
        let mut streams: Vec<StreamId> = Vec::new();
        let keys = self.streams.keys();
        let ghost all = keys.remaining();
        for key in it: keys
            invariant
                streams@.len() == it.index(),
                it.seq() == all,
                forall|i: int| 0 <= i < streams@.len() ==> (#[trigger] streams@[i]).0 == *all[i],
        {
            streams.push(StreamId(*key));
        }
        proof {
            assert(all.unref().to_set() == self.streams@.dom());
            assert forall|i: int, j: int|
                0 <= i < streams@.len() && 0 <= j < streams@.len() && i != j implies streams@[i]
                != streams@[j] by {
                assert(all[i] != all[j]);
            }
            assert forall|stream: StreamId|
                streams@.contains(stream) <==> self@.streams.contains_key(stream) by {
                if streams@.contains(stream) {
                    let i = choose|i: int| 0 <= i < streams@.len() && streams@[i] == stream;
                    assert(all.unref()[i] == stream.0);
                    assert(all.unref().to_set().contains(stream.0));
                }
                if self@.streams.contains_key(stream) {
                    assert(all.unref().to_set().contains(stream.0));
                    let i = choose|i: int| 0 <= i < all.unref().len() && all.unref()[i] == stream.0;
                    assert(streams@[i] == stream);
                }
            }
        }
        streams
    }

    /// Claims every stream that `headers` has classified as a message
    /// stream, and reads each from the start of its first frame from now on.
    /// No other stream can come to be read here, so no byte of a stream is
    /// taken for a frame before its two header bytes have arrived and spelt
    /// the message purpose. Returns the claimed streams that are
    /// bidirectional, which a message stream is not meant to be: they are
    /// read all the same.
    pub fn take_message_streams(&mut self, headers: &mut RecvStreamHeaders) -> (anomalies: Vec<
        StreamId,
    >)
        ensures
            final(headers)@.streams == old(headers)@.streams.remove_keys(
                message_streams(old(headers)@),
            ),
            final(self)@ == old(self)@.claiming(message_streams(old(headers)@)),
            final(self)@.wf(),
            anomalies@.no_duplicates(),
            forall|stream: StreamId| #[trigger]
                anomalies@.contains(stream) <==> message_streams(old(headers)@).contains(stream)
                    && old(headers)@.streams[stream].dir == Dir::Bi,
    {
        proof {
            use_type_invariant(&*self);
        }
        let mut taken = MessageRecvBuffers::new();
        core::mem::swap(self, &mut taken);
        let MessageRecvBuffers { mut streams, messages } = taken;
        let mut anomalies: Vec<StreamId> = Vec::new();
        let ghost mut claimed: Set<StreamId> = Set::empty();
        let ghost before = old(self)@;
        let ghost offered = old(headers)@;
        let ghost tag = StreamHeader::Messages.tag();
        let mut more: bool = true;
        proof {
            assert(offered.streams.remove_keys(claimed) =~= offered.streams);
            assert(before.claiming(claimed).streams =~= before.streams);
        }
        while more
            invariant
                forall|key: u64| streams@.contains_key(key) ==> (#[trigger] streams@[key]).wf(),
                headers@.streams == offered.streams.remove_keys(claimed),
                forall|stream: StreamId|
                    claimed.contains(stream) ==> offered.claimable(stream, tag),
                !more ==> forall|stream: StreamId| !headers@.claimable(stream, tag),
                Map::new(
                    |stream: StreamId| streams@.contains_key(stream.0),
                    |stream: StreamId| streams@[stream.0].pending(),
                ) == before.claiming(claimed).streams,
                anomalies@.no_duplicates(),
                forall|stream: StreamId| #[trigger]
                    anomalies@.contains(stream) <==> is_anomaly(offered, claimed, stream),
                tag == StreamHeader::Messages.tag(),
            decreases headers@.streams.dom().len() + if more { 1int } else { 0int },
        {
            let ghost held = headers@;
            let ghost flagged = anomalies@;
            proof {
                lemma_header_into_tag(StreamHeader::Messages);
            }
            match headers.take_stream(StreamHeader::Messages) {
                None => {
                    more = false;
                },
                Some((stream_id, dir)) => {
                    if dir == Dir::Bi {
                        anomalies.push(stream_id);
                    }
                    proof {
                        assert(!claimed.contains(stream_id));
                        assert(!flagged.contains(stream_id));
                        assert forall|stream: StreamId|
                            anomalies@.contains(stream) <==> flagged.contains(stream) || (stream
                                == stream_id && dir == Dir::Bi) by {
                            if dir == Dir::Bi {
                                assert(anomalies@ =~= flagged.push(stream_id));
                                if flagged.contains(stream) {
                                    let i = choose|i: int|
                                        0 <= i < flagged.len() && flagged[i] == stream;
                                    assert(anomalies@[i] == stream);
                                }
                                if stream == stream_id {
                                    assert(anomalies@[flagged.len() as int] == stream);
                                }
                                if anomalies@.contains(stream) {
                                    let i = choose|i: int|
                                        0 <= i < anomalies@.len() && anomalies@[i] == stream;
                                    assert(i < flagged.len() ==> flagged[i] == stream);
                                }
                            } else {
                                assert(anomalies@ =~= flagged);
                            }
                        }
                    }
                    let ghost known = streams@;
                    streams.insert(stream_id.0, MessageRecvBufferState::new());
                    proof {
                        assert(held.streams.contains_key(stream_id));
                        assert(!claimed.contains(stream_id));
                        assert(offered.streams[stream_id] == held.streams[stream_id]);
                        let grown = claimed.insert(stream_id);
                        assert(headers@.streams =~= offered.streams.remove_keys(grown));
                        let now = Map::new(
                            |stream: StreamId| streams@.contains_key(stream.0),
                            |stream: StreamId| streams@[stream.0].pending(),
                        );
                        let was = Map::new(
                            |stream: StreamId| known.contains_key(stream.0),
                            |stream: StreamId| known[stream.0].pending(),
                        );
                        assert forall|stream: StreamId|
                            now.contains_key(stream) <==> before.claiming(
                                grown,
                            ).streams.contains_key(stream) by {
                            if stream.0 == stream_id.0 {
                                assert(stream == stream_id);
                            } else {
                                assert(was.contains_key(stream) == now.contains_key(stream));
                            }
                        }
                        assert forall|stream: StreamId| now.contains_key(stream) implies now[stream]
                            == before.claiming(grown).streams[stream] by {
                            if stream.0 == stream_id.0 {
                                assert(stream == stream_id);
                            } else {
                                assert(was.contains_key(stream));
                                assert(was[stream] == now[stream]);
                            }
                        }
                        assert(now =~= before.claiming(grown).streams);
                        assert(offered.streams[stream_id].dir == dir);
                        assert forall|stream: StreamId| #[trigger]
                            anomalies@.contains(stream) <==> is_anomaly(
                                offered,
                                grown,
                                stream,
                            ) by {
                            assert(grown.contains(stream) <==> claimed.contains(stream) || stream
                                == stream_id);
                            assert(flagged.contains(stream) <==> is_anomaly(
                                offered,
                                claimed,
                                stream,
                            ));
                        }
                        claimed = grown;
                    }
                },
            }
        }
        *self = MessageRecvBuffers { streams, messages };
        proof {
            assert(claimed =~= message_streams(offered)) by {
                assert forall|stream: StreamId| offered.claimable(stream, tag) implies claimed.contains(
                    stream,
                ) by {
                    if !claimed.contains(stream) {
                        assert(headers@.streams.contains_key(stream));
                        assert(headers@.claimable(stream, tag));
                    }
                }
            }
            assert(self@.streams =~= before.claiming(claimed).streams);
            assert(self@.queued =~= before.queued);
            assert forall|stream: StreamId|
                anomalies@.contains(stream) <==> message_streams(offered).contains(stream)
                    && offered.streams[stream].dir == Dir::Bi by {
                assert(anomalies@.contains(stream) <==> is_anomaly(offered, claimed, stream));
            }
            use_type_invariant(&*self);
            self.lemma_view_wf();
        }
        anomalies
    }

    /// Takes the payloads that wait under `message_id`, oldest first, for
    /// decoding. The queue of that type is empty afterwards.
    pub fn take_messages(&mut self, message_id: u16) -> (payloads: Vec<Vec<u8>>)
        ensures
            payloads.deep_view() == old(self)@.queued[message_id],
            final(self)@ == old(self)@.taking(message_id),
            final(self)@.wf(),
    {
        proof {
            use_type_invariant(&*self);
        }
        let mut taken = MessageRecvBuffers::new();
        core::mem::swap(self, &mut taken);
        let MessageRecvBuffers { streams, mut messages } = taken;
        let mut payloads: Vec<Vec<u8>> = Vec::new();
        let ghost earlier = messages@;
        match messages.remove(&message_id) {
            Some(mut queue) => {
                let ghost waiting = queue@;
                while queue.len() > 0
                    invariant
                        payloads@ + queue@ == waiting,
                    decreases queue@.len(),
                {
                    let ghost rest = queue@;
                    match queue.pop_front() {
                        Some(payload) => {
                            payloads.push(payload);
                            proof {
                                assert(payloads@ + queue@ =~= waiting);
                            }
                        },
                        None => {},
                    }
                }
                proof {
                    assert(payloads@ =~= waiting);
                }
            },
            None => {},
        }
        proof {
            assert forall|i: int| 0 <= i < payloads@.len() implies (#[trigger] payloads@[i]).deep_view()
                == payloads@[i]@ by {
                assert(payloads@[i].deep_view() =~= payloads@[i]@);
            }
            assert(payloads.deep_view() =~= queue_view(earlier, message_id));
            assert forall|other: u16| other != message_id implies queue_view(messages@, other)
                == queue_view(earlier, other) by {}
        }
        *self = MessageRecvBuffers { streams, messages };
        proof {
            assert(self@.streams =~= old(self)@.streams);
            assert(self@.queued =~= old(self)@.taking(message_id).queued);
            use_type_invariant(&*self);
            self.lemma_view_wf();
        }
        payloads
    }
}

/// `stream` is one of the `claimed` streams and is bidirectional.
spec fn is_anomaly(headers: RecvStreamHeadersView, claimed: Set<StreamId>, stream: StreamId) -> bool {
    claimed.contains(stream) && headers.streams[stream].dir == Dir::Bi
}

/// The streams that `headers` holds classified as message streams.
pub open spec fn message_streams(headers: RecvStreamHeadersView) -> Set<StreamId> {
    Set::new(|stream: StreamId| headers.claimable(stream, StreamHeader::Messages.tag()))
}

} // verus!
