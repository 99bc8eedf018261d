//! The wire format of a message stream, as mathematics.
//!
//! After its header a message stream is a run of frames. A frame is a type id,
//! the payload's length (both sixteen bits, most significant byte first) and
//! the payload. [`parse_frames`] reads as many whole frames as a run of bytes
//! holds; the laws below say that it undoes [`frames_bytes`] and that it does
//! not care how the bytes were cut into chunks on their way.

use vstd::prelude::*;
use crate::networking::u16_reader::{be_bytes, be_value, lemma_be_value_of_bytes};

verus! {

/// The longest payload whose length a frame can state.
pub const MAX_PAYLOAD: usize = 65535;

/// One message as it travels: the id of its type and its encoded bytes.
pub struct Frame {
    pub message_id: u16,
    pub payload: Seq<u8>,
}

/// What a run of bytes parses to: its whole frames, and the bytes of the frame
/// that is still incomplete.
pub struct Parsed {
    pub frames: Seq<Frame>,
    pub rest: Seq<u8>,
}

/// The bytes of one frame.
pub open spec fn frame_bytes(frame: Frame) -> Seq<u8> {
    be_bytes(frame.message_id) + be_bytes(frame.payload.len() as u16) + frame.payload
}

/// The bytes of a run of frames, one after the other.
pub open spec fn frames_bytes(frames: Seq<Frame>) -> Seq<u8>
    decreases frames.len(),
{
    if frames.len() == 0 {
        Seq::empty()
    } else {
        frames_bytes(frames.drop_last()) + frame_bytes(frames.last())
    }
}

/// Every payload is short enough for its length to be stated.
pub open spec fn all_fit(frames: Seq<Frame>) -> bool {
    forall|i: int| 0 <= i < frames.len() ==> (#[trigger] frames[i]).payload.len() <= MAX_PAYLOAD
}

/// The bytes do not hold a whole frame yet.
pub open spec fn unfinished(bytes: Seq<u8>) -> bool {
    bytes.len() < 4 || bytes.len() < 4 + be_value(bytes[2], bytes[3])
}

/// The whole frames at the head of `bytes`, in order, and what follows them.
pub open spec fn parse_frames(bytes: Seq<u8>) -> Parsed
    decreases bytes.len(),
{
    if unfinished(bytes) {
        Parsed { frames: Seq::empty(), rest: bytes }
    } else {
        let end = 4 + be_value(bytes[2], bytes[3]);
        let later = parse_frames(bytes.skip(end));
        Parsed {
            frames: seq![
                Frame {
                    message_id: be_value(bytes[0], bytes[1]),
                    payload: bytes.subrange(4, end),
                },
            ] + later.frames,
            rest: later.rest,
        }
    }
}

/// How many more bytes the frame in progress wants, given the bytes of it
/// that have arrived: what its id lacks, else what its length lacks, else what
/// its payload lacks.
pub open spec fn bytes_wanted(pending: Seq<u8>) -> int {
    if pending.len() < 2 {
        2 - pending.len()
    } else if pending.len() < 4 {
        4 - pending.len()
    } else {
        4 + be_value(pending[2], pending[3]) - pending.len()
    }
}

/// The payloads of the frames of one type, in the order of the frames.
pub open spec fn payloads_of(frames: Seq<Frame>, message_id: u16) -> Seq<Seq<u8>>
    decreases frames.len(),
{
    if frames.len() == 0 {
        Seq::empty()
    } else if frames.last().message_id == message_id {
        payloads_of(frames.drop_last(), message_id).push(frames.last().payload)
    } else {
        payloads_of(frames.drop_last(), message_id)
    }
}

/// What a receiver has after the chunks arrived one by one, each parsed
/// together with what the one before left over.
pub open spec fn parse_chunks(pending: Seq<u8>, chunks: Seq<Seq<u8>>) -> Parsed
    decreases chunks.len(),
{
    if chunks.len() == 0 {
        Parsed { frames: Seq::empty(), rest: pending }
    } else {
        let first = parse_frames(pending + chunks.first());
        let later = parse_chunks(first.rest, chunks.drop_first());
        Parsed { frames: first.frames + later.frames, rest: later.rest }
    }
}

/// The chunks laid end to end.
pub open spec fn joined(chunks: Seq<Seq<u8>>) -> Seq<u8>
    decreases chunks.len(),
{
    if chunks.len() == 0 {
        Seq::empty()
    } else {
        chunks.first() + joined(chunks.drop_first())
    }
}

/// What is left over after parsing never holds a whole frame.
pub proof fn lemma_rest_unfinished(bytes: Seq<u8>)
    ensures
        unfinished(parse_frames(bytes).rest),
    decreases bytes.len(),
{
    if !unfinished(bytes) {
        lemma_rest_unfinished(bytes.skip(4 + be_value(bytes[2], bytes[3])));
    }
}

/// A frame followed by more bytes parses to that frame and then to whatever
/// the bytes after it parse to.
pub proof fn lemma_parse_after_frame(frame: Frame, after: Seq<u8>)
    requires
        frame.payload.len() <= MAX_PAYLOAD,
    ensures
        parse_frames(frame_bytes(frame) + after).frames == seq![frame] + parse_frames(
            after,
        ).frames,
        parse_frames(frame_bytes(frame) + after).rest == parse_frames(after).rest,
{
    let bytes = frame_bytes(frame) + after;
    let length = frame.payload.len() as u16;
    lemma_be_value_of_bytes(frame.message_id);
    lemma_be_value_of_bytes(length);
    assert(bytes[0] == be_bytes(frame.message_id)[0]);
    assert(bytes[1] == be_bytes(frame.message_id)[1]);
    assert(bytes[2] == be_bytes(length)[0]);
    assert(bytes[3] == be_bytes(length)[1]);
    assert(be_value(bytes[2], bytes[3]) == length);
    let end = 4 + length;
    assert(bytes.skip(end) =~= after);
    assert(bytes.subrange(4, end) =~= frame.payload);
}

/// Parsing is incremental: parsing `first + second` gives what parsing `first`
/// gives, followed by what its leftover together with `second` gives.
pub proof fn lemma_parse_append(first: Seq<u8>, second: Seq<u8>)
    ensures
        parse_frames(first + second).frames == parse_frames(first).frames + parse_frames(
            parse_frames(first).rest + second,
        ).frames,
        parse_frames(first + second).rest == parse_frames(
            parse_frames(first).rest + second,
        ).rest,
    decreases first.len(),
{
    if unfinished(first) {
        assert(parse_frames(first).frames + parse_frames(first + second).frames
            =~= parse_frames(first + second).frames);
    } else {
        let whole = first + second;
        let end = 4 + be_value(first[2], first[3]);
        assert(whole[2] == first[2] && whole[3] == first[3]);
        assert(whole[0] == first[0] && whole[1] == first[1]);
        assert(whole.skip(end) =~= first.skip(end) + second);
        assert(whole.subrange(4, end) =~= first.subrange(4, end));
        lemma_parse_append(first.skip(end), second);
        let head = seq![
            Frame { message_id: be_value(first[0], first[1]), payload: first.subrange(4, end) },
        ];
        let middle = parse_frames(first.skip(end)).frames;
        let tail = parse_frames(parse_frames(first.skip(end)).rest + second).frames;
        assert(head + (middle + tail) =~= (head + middle) + tail);
    }
}

/// More bytes that do not complete the frame in progress yield no frame.
pub proof fn lemma_parse_more_unfinished(before: Seq<u8>, piece: Seq<u8>)
    requires
        unfinished(parse_frames(before).rest + piece),
    ensures
        parse_frames(before + piece) == (Parsed {
            frames: parse_frames(before).frames,
            rest: parse_frames(before).rest + piece,
        }),
{
    lemma_parse_append(before, piece);
    assert(parse_frames(before).frames + Seq::<Frame>::empty() =~= parse_frames(before).frames);
}

/// The bytes that complete the frame in progress yield that frame and leave
/// nothing over.
pub proof fn lemma_parse_more_frame(before: Seq<u8>, piece: Seq<u8>, frame: Frame)
    requires
        frame.payload.len() <= MAX_PAYLOAD,
        parse_frames(before).rest + piece == frame_bytes(frame),
    ensures
        parse_frames(before + piece) == (Parsed {
            frames: parse_frames(before).frames.push(frame),
            rest: Seq::empty(),
        }),
{
    lemma_parse_append(before, piece);
    lemma_parse_after_frame(frame, Seq::empty());
    assert(frame_bytes(frame) + Seq::<u8>::empty() =~= frame_bytes(frame));
    assert(parse_frames(Seq::<u8>::empty()).frames =~= Seq::<Frame>::empty());
    assert(parse_frames(before).frames + (seq![frame] + Seq::<Frame>::empty())
        =~= parse_frames(before).frames.push(frame));
}

/// Adding a frame to a run adds its bytes at the end.
pub proof fn lemma_frames_bytes_push(frames: Seq<Frame>, frame: Frame)
    ensures
        frames_bytes(frames.push(frame)) == frames_bytes(frames) + frame_bytes(frame),
{
    assert(frames.push(frame).drop_last() =~= frames);
}

/// Round trip: the bytes of any run of frames whose payloads fit parse back to
/// the same frames, in the same order, with nothing left over. A payload of no
/// bytes and one of 65535 bytes are both within this.
pub proof fn lemma_parse_frames_bytes(frames: Seq<Frame>)
    requires
        all_fit(frames),
    ensures
        parse_frames(frames_bytes(frames)) == (Parsed { frames, rest: Seq::empty() }),
    decreases frames.len(),
{
    if frames.len() == 0 {
        assert(parse_frames(frames_bytes(frames)).frames =~= frames);
    } else {
        let before = frames.drop_last();
        let last = frames.last();
        assert(all_fit(before)) by {
            assert forall|i: int| 0 <= i < before.len() implies (#[trigger] before[i]).payload.len()
                <= MAX_PAYLOAD by {
                assert(before[i] == frames[i]);
            }
        }
        lemma_parse_frames_bytes(before);
        lemma_parse_append(frames_bytes(before), frame_bytes(last));
        lemma_parse_after_frame(last, Seq::empty());
        assert(frame_bytes(last) + Seq::<u8>::empty() =~= frame_bytes(last));
        assert(Seq::<u8>::empty() + frame_bytes(last) =~= frame_bytes(last));
        assert(parse_frames(Seq::<u8>::empty()).frames =~= Seq::<Frame>::empty());
        assert(before + (seq![last] + Seq::<Frame>::empty()) =~= frames);
    }
}

/// However a run of bytes is cut into chunks, parsing the chunks one by one
/// gives what parsing the run at once gives.
pub proof fn lemma_parse_chunks(pending: Seq<u8>, chunks: Seq<Seq<u8>>)
    requires
        unfinished(pending),
    ensures
        parse_chunks(pending, chunks) == parse_frames(pending + joined(chunks)),
    decreases chunks.len(),
{
    if chunks.len() == 0 {
        assert(pending + joined(chunks) =~= pending);
    } else {
        let first = parse_frames(pending + chunks.first());
        lemma_rest_unfinished(pending + chunks.first());
        lemma_parse_chunks(first.rest, chunks.drop_first());
        lemma_parse_append(pending + chunks.first(), joined(chunks.drop_first()));
        assert((pending + chunks.first()) + joined(chunks.drop_first()) =~= pending + joined(
            chunks,
        ));
    }
}

/// Two ways of cutting the same bytes into chunks give the same frames and
/// leave the same bytes over.
pub proof fn lemma_chunking_invariance(
    pending: Seq<u8>,
    one_way: Seq<Seq<u8>>,
    another_way: Seq<Seq<u8>>,
)
    requires
        unfinished(pending),
        joined(one_way) == joined(another_way),
    ensures
        parse_chunks(pending, one_way) == parse_chunks(pending, another_way),
{
    lemma_parse_chunks(pending, one_way);
    lemma_parse_chunks(pending, another_way);
}

/// The payloads of one type in two runs of frames, one after the other.
pub proof fn lemma_payloads_of_add(first: Seq<Frame>, second: Seq<Frame>, message_id: u16)
    ensures
        payloads_of(first + second, message_id) == payloads_of(first, message_id) + payloads_of(
            second,
            message_id,
        ),
    decreases second.len(),
{
    if second.len() == 0 {
        assert(first + second =~= first);
        assert(payloads_of(first, message_id) + payloads_of(second, message_id) =~= payloads_of(
            first,
            message_id,
        ));
    } else {
        assert((first + second).drop_last() =~= first + second.drop_last());
        assert((first + second).last() == second.last());
        lemma_payloads_of_add(first, second.drop_last(), message_id);
        if second.last().message_id == message_id {
            assert(payloads_of(first, message_id) + payloads_of(second, message_id)
                =~= (payloads_of(first, message_id) + payloads_of(
                second.drop_last(),
                message_id,
            )).push(second.last().payload));
        }
    }
}

} // verus!
