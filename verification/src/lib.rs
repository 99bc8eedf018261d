//! Stream classification and message framing for connections that carry many
//! independent byte streams.
//!
//! Every stream opens with a two byte purpose header. A stream whose header names
//! the message purpose then carries frames: a type id, a length, and that many
//! bytes of payload. Nothing in this crate touches a socket: each type is advanced
//! by handing it what the transport returned, and says what to do next.

use vstd::prelude::*;

pub mod networking;

verus! {

/// The protocol's one message: a line of text.
pub struct PingMessage {
    pub message: String,
}

} // verus!
