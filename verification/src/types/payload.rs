use vstd::prelude::*;

use crate::types::message::Message;
use crate::types::packet::Packet;
use crate::types::topology::Topology;

verus! {

/// The tagged content of a message body.  On the wire the tag is the
/// `"type"` field, in snake case (`init`, `echo_ok`, `sync_request`, ...),
/// and the variant's fields are flattened into the body object.
#[derive(Debug, PartialEq, Eq)]
pub enum Payload {
    Init { node_id: String, node_ids: Vec<String> },
    InitOk,
    Echo { echo: String },
    EchoOk { echo: String },
    Generate,
    GenerateOk { id: usize },
    Broadcast { message: usize },
    BroadcastOk,
    Read,
    ReadOk { messages: Vec<usize> },
    Topology { topology: Topology },
    TopologyOk,
    Error { code: usize, text: String },
    SyncRequest,
    Batch { messages: Vec<Message> },
    Ack,
    MultiAck { messages: Vec<usize> },
    Forward { packet: Box<Packet> },
}

/// Content equality of two payloads: the same variant, with every string
/// and list field equal in its view.  This is what a faithful copy
/// preserves; two copies need not be the same heap value.
pub open spec fn payload_eq(a: Payload, b: Payload) -> bool
    decreases a,
{
    match (a, b) {
        (
            Payload::Init { node_id: n1, node_ids: i1 },
            Payload::Init { node_id: n2, node_ids: i2 },
        ) => n1@ == n2@ && i1.deep_view() == i2.deep_view(),
        (Payload::InitOk, Payload::InitOk) => true,
        (Payload::Echo { echo: e1 }, Payload::Echo { echo: e2 }) => e1@ == e2@,
        (Payload::EchoOk { echo: e1 }, Payload::EchoOk { echo: e2 }) => e1@ == e2@,
        (Payload::Generate, Payload::Generate) => true,
        (Payload::GenerateOk { id: id1 }, Payload::GenerateOk { id: id2 }) => id1 == id2,
        (Payload::Broadcast { message: m1 }, Payload::Broadcast { message: m2 }) => m1 == m2,
        (Payload::BroadcastOk, Payload::BroadcastOk) => true,
        (Payload::Read, Payload::Read) => true,
        (Payload::ReadOk { messages: m1 }, Payload::ReadOk { messages: m2 }) => m1@ == m2@,
        (Payload::Topology { topology: t1 }, Payload::Topology { topology: t2 }) => t1.deep_view()
            == t2.deep_view(),
        (Payload::TopologyOk, Payload::TopologyOk) => true,
        (Payload::Error { code: c1, text: t1 }, Payload::Error { code: c2, text: t2 }) => c1 == c2
            && t1@ == t2@,
        (Payload::SyncRequest, Payload::SyncRequest) => true,
        (Payload::Batch { messages: m1 }, Payload::Batch { messages: m2 }) => messages_eq(
            m1@,
            m2@,
        ),
        (Payload::Ack, Payload::Ack) => true,
        (Payload::MultiAck { messages: m1 }, Payload::MultiAck { messages: m2 }) => m1@ == m2@,
        (Payload::Forward { packet: p1 }, Payload::Forward { packet: p2 }) => packet_eq(*p1, *p2),
        _ => false,
    }
}

/// Content equality of two message bodies.
pub open spec fn message_eq(a: Message, b: Message) -> bool
    decreases a,
{
    a.msg_id == b.msg_id && a.in_reply_to == b.in_reply_to && payload_eq(a.payload, b.payload)
}

/// Element-wise content equality of two message sequences.
pub open spec fn messages_eq(a: Seq<Message>, b: Seq<Message>) -> bool
    decreases a,
{
    a.len() == b.len() && (a.len() > 0 ==> message_eq(a[0], b[0]) && messages_eq(
        a.drop_first(),
        b.drop_first(),
    ))
}

/// Content equality of two envelopes.
pub open spec fn packet_eq(a: Packet, b: Packet) -> bool
    decreases a,
{
    a.src@ == b.src@ && a.dest@ == b.dest@ && message_eq(a.body, b.body)
}

/// Sequences whose elements are pairwise content-equal are content-equal.
pub proof fn lemma_messages_eq_pointwise(a: Seq<Message>, b: Seq<Message>)
    requires
        a.len() == b.len(),
        forall|j: int| #![auto] 0 <= j < a.len() ==> message_eq(a[j], b[j]),
    ensures
        messages_eq(a, b),
    decreases a.len(),
{
    if a.len() > 0 {
        lemma_messages_eq_pointwise(a.drop_first(), b.drop_first());
    }
}

impl Payload {
    /// A faithful copy: the same variant with equal contents.
    pub fn duplicate(&self) -> (r: Payload)
        ensures
            payload_eq(*self, r),
        decreases *self,
    {
        match self {
            Payload::Init { node_id, node_ids } => Payload::Init {
                node_id: node_id.clone(),
                node_ids: crate::types::helpers::clone_string_vec(node_ids),
            },
            Payload::InitOk => Payload::InitOk,
            Payload::Echo { echo } => Payload::Echo { echo: echo.clone() },
            Payload::EchoOk { echo } => Payload::EchoOk { echo: echo.clone() },
            Payload::Generate => Payload::Generate,
            Payload::GenerateOk { id } => Payload::GenerateOk { id: *id },
            Payload::Broadcast { message } => Payload::Broadcast { message: *message },
            Payload::BroadcastOk => Payload::BroadcastOk,
            Payload::Read => Payload::Read,
            Payload::ReadOk { messages } => Payload::ReadOk {
                messages: crate::types::helpers::clone_usize_vec(messages),
            },
            Payload::Topology { topology } => Payload::Topology {
                topology: crate::types::helpers::clone_adjacency(topology),
            },
            Payload::TopologyOk => Payload::TopologyOk,
            Payload::Error { code, text } => Payload::Error { code: *code, text: text.clone() },
            Payload::SyncRequest => Payload::SyncRequest,
            Payload::Batch { messages } => {
                let mut out: Vec<Message> = Vec::new();
                let mut i: usize = 0;
                while i < messages.len()
                    invariant
                        *self is Batch,
                        self->Batch_messages == *messages,
                        0 <= i <= messages@.len(),
                        out@.len() == i,
                        forall|j: int| #![auto] 0 <= j < i ==> message_eq(messages@[j], out@[j]),
                    decreases messages@.len() - i,
                {
                    proof {
                        assert(decreases_to!(*self => self->Batch_messages));
                        assert(decreases_to!(self->Batch_messages => self->Batch_messages@));
                        assert(decreases_to!(self->Batch_messages@ => self->Batch_messages@[i as int]));
                        assert(decreases_to!(*self => messages@[i as int]));
                    }
                    out.push(messages[i].duplicate());
                    i = i + 1;
                }
                proof {
                    lemma_messages_eq_pointwise(messages@, out@);
                }
                Payload::Batch { messages: out }
            },
            Payload::Ack => Payload::Ack,
            Payload::MultiAck { messages } => Payload::MultiAck {
                messages: crate::types::helpers::clone_usize_vec(messages),
            },
            Payload::Forward { packet } => Payload::Forward { packet: Box::new(packet.duplicate()) },
        }
    }
}

impl Message {
    /// A faithful copy: equal sequence fields and equal payload contents.
    pub fn duplicate(&self) -> (r: Message)
        ensures
            message_eq(*self, r),
        decreases *self,
    {
        Message {
            msg_id: self.msg_id,
            in_reply_to: self.in_reply_to,
            payload: self.payload.duplicate(),
        }
    }
}

impl Packet {
    /// A faithful copy: the same addresses and equal body contents.
    pub fn duplicate(&self) -> (r: Packet)
        ensures
            packet_eq(*self, r),
        decreases *self,
    {
        Packet { src: self.src.clone(), dest: self.dest.clone(), body: self.body.duplicate() }
    }
}

} // verus!
