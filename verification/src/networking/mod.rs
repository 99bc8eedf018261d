//! Streams, their purpose headers, and the messages framed on them.
//!
//! The types here are what the rest of the crate is told by a transport and
//! tells it back: which stream, in which direction, what a read returned, and
//! what to do with the stream next.

use vstd::prelude::*;

pub mod frames;
pub mod messages;
pub mod protocol;
pub mod receivers;
pub mod senders;
pub mod stream_headers;
pub mod u16_reader;

verus! {

/// Names one stream of a connection. The transport hands these out; no two
/// open streams of a connection share one.
#[derive(Clone, Copy, Debug, PartialEq, Eq, Structural)]
pub struct StreamId(pub u64);

/// Whether only the side that opened a stream may send on it, or both.
#[derive(Clone, Copy, Debug, PartialEq, Eq, Structural)]
pub enum Dir {
    Uni,
    Bi,
}

/// What a stream is for. It is sent as the stream's first two bytes.
#[derive(Clone, Copy, Debug, PartialEq, Eq, Structural)]
pub enum StreamHeader {
    /// The stream carries framed messages.
    Messages,
}

impl StreamHeader {
    /// The number that stands for this purpose on the wire.
    pub open spec fn tag(self) -> u16 {
        match self {
            StreamHeader::Messages => 0,
        }
    }
}

impl From<StreamHeader> for u16 {
    fn from(value: StreamHeader) -> (tag: u16) {
        match value {
            StreamHeader::Messages => 0,
        }
    }
}

impl vstd::std_specs::convert::FromSpecImpl<StreamHeader> for u16 {
    open spec fn obeys_from_spec() -> bool {
        true
    }

    open spec fn from_spec(value: StreamHeader) -> u16 {
        value.tag()
    }
}

/// Handed over as a number, a purpose is its tag.
pub proof fn lemma_header_into_tag(header: StreamHeader)
    ensures
        <StreamHeader as vstd::std_specs::convert::IntoSpec<u16>>::obeys_into_spec(),
        <StreamHeader as vstd::std_specs::convert::IntoSpec<u16>>::into_spec(header)
            == header.tag(),
{
}

/// Why a read of a stream gave no bytes.
#[derive(Clone, Copy, Debug, PartialEq, Eq, Structural)]
pub enum StreamReadError {
    /// Nothing has arrived yet; more may.
    Blocked,
    /// The peer gave the stream up, with this code.
    Reset(u64),
    /// The transport failed in some other way.
    Other,
}

/// What one read of a stream returned: bytes, the stream's clean end (`None`),
/// or the reason for neither.
pub type StreamRead = Result<Option<Vec<u8>>, StreamReadError>;

/// What to do with a stream after one read of it was taken in.
#[derive(Clone, Copy, Debug, PartialEq, Eq, Structural)]
pub enum ReadStep {
    /// The bytes were taken and more are wanted: read the stream again.
    Continue,
    /// The stream's header is complete; nothing more is read from it here.
    Classified,
    /// Nothing has arrived: leave the stream until the next pass.
    Blocked,
    /// The stream ended. What was held of it has been let go.
    Finished,
    /// The peer reset the stream with this code. What was held of it has been
    /// let go.
    Reset(u64),
    /// The transport failed. The pass over this connection ends here, with
    /// the transport's error.
    Failed,
    /// The stream is not being read here. Nothing was done.
    Untracked,
}

} // verus!
