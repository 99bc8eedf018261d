//! Messages on streams: the ids that tell their types apart, and the inbox
//! that holds the decoded messages of one type. The decoder that cuts a
//! message stream into frames and the stream that sends are at hand here
//! under their own names.

use std::collections::VecDeque;
use std::marker::PhantomData;
use vstd::prelude::*;
use crate::networking::frames::{all_fit, frames_bytes, joined, payloads_of, Frame};
use crate::networking::receivers::lemma_frames_arrive;
use crate::networking::senders::lemma_queued_all;
use crate::networking::stream_headers::{lemma_header_in_chunks, RecvStreamHeadersView};
use crate::networking::u16_reader::be_bytes;
use crate::networking::{StreamHeader, StreamId};
pub use crate::networking::receivers::{message_streams, MessageRecvBuffers, MessageRecvBuffersView};
pub use crate::networking::senders::{MessageSendStreamState, MessageSendStreamView, MessageTooLong};

verus! {

/// The number that stands on the wire for messages of type `T`.
///
/// Both ends of a connection have to give every type the same number. They
/// do when they register the same types in the same order.
pub struct MessageId<T> {
    _p: PhantomData<T>,
    id: u16,
}

impl<T> View for MessageId<T> {
    type V = u16;

    closed spec fn view(&self) -> u16 {
        self.id
    }
}

impl<T> Clone for MessageId<T> {
    fn clone(&self) -> (copy: Self)
        ensures
            copy@ == self@,
    {
        MessageId { _p: PhantomData, id: self.id }
    }
}

impl<T> Copy for MessageId<T> {

}

impl<T> MessageId<T> {
    /// The number itself.
    pub fn id(&self) -> (id: u16)
        ensures
            id == self@,
    {
        self.id
    }
}

/// Hands out message ids in the order of asking: 0 first, then 1, and so on
/// for as long as sixteen bits last.
pub struct NextMessageId {
    next: Option<u16>,
}

/// Something that message types can be registered with.
pub trait AddMessage {
    /// How many types have been registered.
    spec fn registered(&self) -> nat;

    /// Registers `T` and returns its id: the number of types registered
    /// before it. Returns `None`, and registers nothing, once all 65536 ids
    /// are taken.
    fn add_message<T>(&mut self) -> (id: Option<MessageId<T>>)
        ensures
            match id {
                Some(id) => {
                    &&& old(self).registered() < 65536
                    &&& id@ == old(self).registered()
                    &&& final(self).registered() == old(self).registered() + 1
                },
                None => {
                    &&& old(self).registered() >= 65536
                    &&& final(self).registered() == old(self).registered()
                },
            },
    ;
}

impl Default for NextMessageId {
    fn default() -> (ids: Self)
        ensures
            ids.registered() == 0,
    {
        NextMessageId::new()
    }
}

impl NextMessageId {
    /// Nothing registered yet: the next id is 0.
    pub fn new() -> (ids: Self)
        ensures
            ids.registered() == 0,
    {
        NextMessageId { next: Some(0) }
    }
}

impl AddMessage for NextMessageId {
    closed spec fn registered(&self) -> nat {
        match self.next {
            Some(next) => next as nat,
            None => 65536,
        }
    }

    fn add_message<T>(&mut self) -> (id: Option<MessageId<T>>) {
        match self.next {
            Some(id) => {
                self.next = if id < 65535 {
                    Some(id + 1)
                } else {
                    None
                };
                Some(MessageId { _p: PhantomData, id })
            },
            None => None,
        }
    }
}

/// The decoded messages of one type that a connection has received and the
/// application has not taken yet, oldest first.
pub struct ReceivedMessages<T> {
    messages: VecDeque<T>,
}

impl<T> View for ReceivedMessages<T> {
    type V = Seq<T>;

    closed spec fn view(&self) -> Seq<T> {
        self.messages@
    }
}

/// What decoding leaves of a run of payloads: the values of those that
/// decoded, in their order. A payload that did not decode is dropped.
pub open spec fn decoded_values<T>(decoded: Seq<Option<T>>) -> Seq<T>
    decreases decoded.len(),
{
    if decoded.len() == 0 {
        Seq::empty()
    } else {
        match decoded.last() {
            Some(value) => decoded_values(decoded.drop_last()).push(value),
            None => decoded_values(decoded.drop_last()),
        }
    }
}

/// How many of a run of payloads did not decode.
pub open spec fn decoded_failures<T>(decoded: Seq<Option<T>>) -> nat
    decreases decoded.len(),
{
    if decoded.len() == 0 {
        0
    } else {
        decoded_failures(decoded.drop_last()) + if decoded.last() is None {
            1nat
        } else {
            0nat
        }
    }
}

impl<T> Default for ReceivedMessages<T> {
    fn default() -> (inbox: Self)
        ensures
            inbox@ == Seq::<T>::empty(),
    {
        ReceivedMessages::new()
    }
}

impl<T> ReceivedMessages<T> {
    /// An inbox that holds nothing.
    pub fn new() -> (inbox: Self)
        ensures
            inbox@ == Seq::<T>::empty(),
    {
        ReceivedMessages { messages: VecDeque::new() }
    }

    /// Takes in what decoding made of the payloads of this type, in the
    /// order of the payloads: `Some` for a value, `None` for a payload that
    /// did not decode. The values join the inbox in that order; a failure
    /// holds up nothing that comes after it. Returns the number of failures.
    pub fn deliver(&mut self, decoded: Vec<Option<T>>) -> (failures: usize)
        ensures
            final(self)@ == old(self)@ + decoded_values(decoded@),
            failures == decoded_failures(decoded@),
    {
        let mut failures: usize = 0;
        let ghost all = decoded@;
        let count: usize = decoded.len();
        proof {
            assert(decoded@.len() == count);
            assert(all.take(0) =~= Seq::<Option<T>>::empty());
            assert(self@ + decoded_values(all.take(0)) =~= self@);
        }
        for item in it: decoded
            invariant
                it.seq() == all,
                all.len() <= usize::MAX,
                self@ == old(self)@ + decoded_values(all.take(it.index() as int)),
                failures == decoded_failures(all.take(it.index() as int)),
                failures <= it.index(),
        {
            proof {
                let now = all.take(it.index() + 1);
                assert(now.drop_last() =~= all.take(it.index() as int));
                assert(now.last() == item);
            }
            match item {
                Some(value) => {
                    self.messages.push_back(value);
                    proof {
                        assert(self@ =~= old(self)@ + decoded_values(all.take(it.index() + 1)));
                    }
                },
                None => {
                    failures = failures + 1;
                },
            }
        }
        proof {
            assert(all.take(all.len() as int) =~= all);
        }
        failures
    }

    /// Takes every message out, oldest first.
    pub fn drain(&mut self) -> (messages: Vec<T>)
        ensures
            messages@ == old(self)@,
            final(self)@ == Seq::<T>::empty(),
    {
        let mut messages: Vec<T> = Vec::new();
        while self.messages.len() > 0
            invariant
                messages@ + self.messages@ == old(self)@,
            decreases self.messages@.len(),
        {
            match self.messages.pop_front() {
                Some(message) => {
                    messages.push(message);
                    proof {
                        assert(messages@ + self.messages@ =~= old(self)@);
                    }
                },
                None => {},
            }
        }
        proof {
            assert(messages@ =~= old(self)@);
            assert(self@ =~= Seq::<T>::empty());
        }
        messages
    }

    /// Takes the oldest message out, if there is one.
    pub fn next(&mut self) -> (message: Option<T>)
        ensures
            match message {
                Some(message) => old(self)@.len() > 0 && message == old(self)@.first()
                    && final(self)@ == old(self)@.drop_first(),
                None => old(self)@.len() == 0 && final(self)@ == old(self)@,
            },
    {
        self.messages.pop_front()
    }
}

/// What a sender writes is what a receiver queues. Let messages whose
/// encodings fit be written, with `queue` set, to a message stream of which
/// nothing was sent yet. Let the bytes that this stream has for the transport
/// reach a receiver that has just accepted the stream: the first two to its
/// headers and the others, once the stream is claimed, to its decoder, both
/// cut into chunks in any way. Then the header classifies the stream as a
/// message stream, the claim takes it, and under each message type the
/// decoder queues the payloads of that type, all of them and in the order of
/// writing, behind what was queued before.
pub proof fn lemma_written_messages_arrive(
    sender: MessageSendStreamView,
    frames: Seq<Frame>,
    headers: RecvStreamHeadersView,
    buffers: MessageRecvBuffersView,
    stream: StreamId,
    header_chunks: Seq<Seq<u8>>,
    frame_chunks: Seq<Seq<u8>>,
)
    requires
        all_fit(frames),
        sender.header == be_bytes(StreamHeader::Messages.tag()),
        sender.buffer.len() == 0,
        buffers.wf(),
        headers.streams.contains_key(stream),
        headers.streams[stream].bytes.len() == 0,
        joined(header_chunks) == sender.queued_all(frames).unsent().take(2),
        joined(frame_chunks) == sender.queued_all(frames).unsent().skip(2),
    ensures
        headers.fed_all(stream, header_chunks).claimable(stream, StreamHeader::Messages.tag()),
        buffers.claiming(
            message_streams(headers.fed_all(stream, header_chunks)),
        ).streams.contains_key(stream),
        forall|id: u16|
            #[trigger] buffers.claiming(
                message_streams(headers.fed_all(stream, header_chunks)),
            ).fed_all(stream, frame_chunks).queued[id] == buffers.queued[id] + payloads_of(
                frames,
                id,
            ),
{
    let tag = StreamHeader::Messages.tag();
    let sent = sender.queued_all(frames);
    lemma_queued_all(sender, frames);
    let wire = sent.unsent();
    assert(sender.buffer =~= Seq::<u8>::empty());
    assert(wire =~= be_bytes(tag) + frames_bytes(frames));
    assert(wire.take(2) =~= be_bytes(tag));
    assert(wire.skip(2) =~= frames_bytes(frames));

    let classified = headers.fed_all(stream, header_chunks);
    lemma_header_in_chunks(headers, stream, header_chunks);
    assert(headers.streams[stream].bytes + joined(header_chunks) =~= be_bytes(tag));
    assert(classified.streams.contains_key(stream));
    assert(classified.streams[stream].bytes == be_bytes(tag));

    let claimed = buffers.claiming(message_streams(classified));
    assert(message_streams(classified).contains(stream));
    assert(claimed.wf()) by {
        assert forall|other: StreamId| #[trigger]
            claimed.streams.contains_key(other) implies crate::networking::frames::unfinished(
            claimed.streams[other],
        ) by {
            if !message_streams(classified).contains(other) {
                assert(buffers.streams.contains_key(other));
            }
        }
    }
    lemma_frames_arrive(claimed, stream, frames, frame_chunks);
}

} // verus!
