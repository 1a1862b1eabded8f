use vstd::prelude::*;

use crate::types::collection::Collection;
use crate::types::message_response::MessageResponse;
use crate::types::node_info::NodeInfo;
use crate::types::packet::Packet;

verus! {

/// The capability a payload processor offers: consume one envelope and a
/// read-only view of the node state, and yield response descriptors.
/// Envelopes whose payload a handler does not recognise yield nothing.
pub trait MessageHandler {
    /// When a handler may be offered this envelope.  Most handlers accept
    /// anything; a handler whose arithmetic could overflow narrows this.
    open spec fn ready(&self, packet: &Packet, state: &NodeInfo) -> bool {
        true
    }

    fn handle_message(&mut self, packet: &Packet, state: &NodeInfo) -> Collection<MessageResponse>
        requires
            old(self).ready(packet, state),
    ;
}

} // verus!
