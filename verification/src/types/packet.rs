use vstd::prelude::*;

use crate::types::message::Message;

verus! {

/// One wire envelope: a source node id, a destination node id and a body.
#[derive(Debug, PartialEq, Eq)]
pub struct Packet {
    pub src: String,
    pub dest: String,
    pub body: Message,
}

} // verus!
