//! The message types of the protocol, in the order that gives them their ids.

use vstd::prelude::*;
use crate::networking::messages::{AddMessage, MessageId};
use crate::PingMessage;

verus! {

/// Registers the protocol's message types, in the one order that both ends
/// of a connection have to keep. Returns the id of [`PingMessage`], or
/// `None` where no id was left for it.
pub fn build_protocol<P: AddMessage>(protocol: &mut P) -> (ping: Option<MessageId<PingMessage>>)
    ensures
        match ping {
            Some(id) => {
                &&& old(protocol).registered() < 65536
                &&& id@ == old(protocol).registered()
                &&& final(protocol).registered() == old(protocol).registered() + 1
            },
            None => {
                &&& old(protocol).registered() >= 65536
                &&& final(protocol).registered() == old(protocol).registered()
            },
        },
{
    protocol.add_message::<PingMessage>()
}

} // verus!
