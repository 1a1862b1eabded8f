use vstd::prelude::*;

use crate::types::broadcast_handler::{broadcast_responses, BroadcastHandler};
use crate::types::helpers::{bcast_entry, build_broadcast_topology, distinct_views, sset};
use crate::types::collection::Collection;
use crate::types::echo_handler::{echo_responses, EchoHandler};
use crate::types::generate_handler::{generate_fits, generate_responses, GenerateHandler};
use crate::types::message::Message;
use crate::types::message_handler::MessageHandler;
use crate::types::message_response::MessageResponse;
use crate::types::node_info::{
    receive_post, MessageSyncStatus, NodeConnectionInfo, NodeInfo, ReceiveOutcome,
};
use crate::types::packet::Packet;
use crate::types::payload::{message_eq, Payload};
use crate::types::topology::Topology;
use crate::types::topology_handler::{topology_responses, TopologyHandler};

verus! {

/// The payload processors a node can register.  The engine offers every
/// envelope that no control payload claims to each registered handler in
/// insertion order.
#[derive(Debug)]
pub enum Handler {
    Echo(EchoHandler),
    Generate(GenerateHandler),
    Broadcast(BroadcastHandler),
    Topology(TopologyHandler),
}

impl Handler {
    /// When this handler may be offered an envelope; see
    /// `MessageHandler::ready`.
    pub open spec fn ready(&self, packet: &Packet, state: &NodeInfo) -> bool {
        match self {
            Handler::Generate(h) => generate_fits(*h, *packet, *state),
            _ => true,
        }
    }

    /// The contract of one fan-out call: the handler evolves and answers as
    /// its own specification says.
    pub open spec fn responses_ok(
        pre: Handler,
        packet: Packet,
        state: NodeInfo,
        post: Handler,
        r: Seq<MessageResponse>,
    ) -> bool {
        match (pre, post) {
            (Handler::Echo(_), Handler::Echo(_)) => echo_responses(packet, r),
            (Handler::Generate(a), Handler::Generate(b)) => generate_responses(
                a,
                packet,
                state,
                b,
                r,
            ),
            (Handler::Broadcast(a), Handler::Broadcast(b)) => broadcast_responses(
                a,
                packet,
                state,
                b,
                r,
            ),
            (Handler::Topology(_), Handler::Topology(_)) => topology_responses(packet, r),
            _ => false,
        }
    }

    /// Offer one envelope to this handler.
    pub fn handle_message(&mut self, packet: &Packet, state: &NodeInfo) -> (r: Collection<
        MessageResponse,
    >)
        requires
            old(self).ready(packet, state),
        ensures
            Handler::responses_ok(*old(self), *packet, *state, *final(self), r@),
    {
        match self {
            Handler::Echo(h) => h.handle_message(packet, state),
            Handler::Generate(h) => h.handle_message(packet, state),
            Handler::Broadcast(h) => h.handle_message(packet, state),
            Handler::Topology(h) => h.handle_message(packet, state),
        }
    }
}

/// A condition the engine treats as fatal, mirroring the process contract:
/// the first envelope must be a well-formed `init`.
#[derive(Debug, PartialEq, Eq, Clone, Copy)]
pub enum EngineError {
    /// An envelope arrived before node state existed and was not `init`.
    ExpectedInit,
    /// The `init` node id was empty or its suffix was not a number.
    InvalidNodeId,
}

/// True when some entry of the connection map has key `k`.
pub open spec fn conn_has(s: Seq<(String, NodeConnectionInfo)>, k: Seq<char>) -> bool {
    exists|i: int| 0 <= i < s.len() && s[i].0@ == k
}

/// The index of the first connection entry whose key is `k`.
pub open spec fn conn_index_of(s: Seq<(String, NodeConnectionInfo)>, k: Seq<char>) -> int
    decreases s.len(),
{
    if s.len() == 0 {
        0
    } else if s[0].0@ == k {
        0
    } else {
        1 + conn_index_of(s.drop_first(), k)
    }
}

/// `conn_index_of` points at the first entry with key `k`.
pub proof fn lemma_conn_index_of(s: Seq<(String, NodeConnectionInfo)>, k: Seq<char>)
    requires
        conn_has(s, k),
    ensures
        0 <= conn_index_of(s, k) < s.len(),
        s[conn_index_of(s, k)].0@ == k,
        forall|j: int| 0 <= j < conn_index_of(s, k) ==> s[j].0@ != k,
    decreases s.len(),
{
    if s.len() == 0 {
    } else if s[0].0@ == k {
    } else {
        assert(conn_has(s.drop_first(), k)) by {
            let i = choose|i: int| 0 <= i < s.len() && s[i].0@ == k;
            assert(s.drop_first()[i - 1].0@ == k);
        }
        lemma_conn_index_of(s.drop_first(), k);
        assert forall|j: int| 0 <= j < conn_index_of(s, k) implies s[j].0@ != k by {
            if j > 0 {
                assert(s.drop_first()[j - 1] == s[j]);
            }
        }
    }
}

/// The index of the first connection entry whose key is `key`, if any.
pub fn conn_find(v: &Vec<(String, NodeConnectionInfo)>, key: &String) -> (r: Option<usize>)
    ensures
        match r {
            Some(i) => conn_has(v@, key@) && i == conn_index_of(v@, key@) && i < v@.len()
                && v@[i as int].0@ == key@,
            None => !conn_has(v@, key@),
        },
{
    let mut i: usize = 0;
    while i < v.len()
        invariant
            0 <= i <= v@.len(),
            forall|j: int| 0 <= j < i ==> v@[j].0@ != key@,
        decreases v@.len() - i,
    {
        let pair = &v[i];
        if pair.0 == *key {
            proof {
                lemma_conn_index_of(v@, key@);
            }
            return Some(i);
        }
        i = i + 1;
    }
    None
}

/// True when the buffer holds a message stamped `k`.
pub open spec fn has_unack(s: Seq<Message>, k: usize) -> bool {
    exists|i: int| 0 <= i < s.len() && s[i].msg_id == Some(k)
}

/// The index of the first buffered message stamped `k`.
pub open spec fn first_unack_idx(s: Seq<Message>, k: usize) -> int
    decreases s.len(),
{
    if s.len() == 0 {
        0
    } else if s[0].msg_id == Some(k) {
        0
    } else {
        1 + first_unack_idx(s.drop_first(), k)
    }
}

/// `first_unack_idx` points at the first message stamped `k`.
pub proof fn lemma_first_unack_idx(s: Seq<Message>, k: usize)
    requires
        has_unack(s, k),
    ensures
        0 <= first_unack_idx(s, k) < s.len(),
        s[first_unack_idx(s, k)].msg_id == Some(k),
        forall|j: int| 0 <= j < first_unack_idx(s, k) ==> s[j].msg_id != Some(k),
    decreases s.len(),
{
    if s.len() == 0 {
    } else if s[0].msg_id == Some(k) {
    } else {
        assert(has_unack(s.drop_first(), k)) by {
            let i = choose|i: int| 0 <= i < s.len() && s[i].msg_id == Some(k);
            assert(s.drop_first()[i - 1].msg_id == Some(k));
        }
        lemma_first_unack_idx(s.drop_first(), k);
        assert forall|j: int| 0 <= j < first_unack_idx(s, k) implies s[j].msg_id != Some(k) by {
            if j > 0 {
                assert(s.drop_first()[j - 1] == s[j]);
            }
        }
    }
}

/// What acknowledging `k` does to an unacknowledged-message buffer: the
/// first message stamped `k` leaves and the buffer's last message takes its
/// slot; a buffer without one is untouched.
pub open spec fn ack_removal_post(buf0: Seq<Message>, k: usize, buf1: Seq<Message>, r: bool) -> bool {
    if has_unack(buf0, k) {
        r && buf1 == buf0.update(first_unack_idx(buf0, k), buf0.last()).drop_last()
    } else {
        !r && buf1 == buf0
    }
}

/// Remove from the buffer the envelope that `msg_id` acknowledges.
///
/// The buffer is scanned from the front and the hit is swapped out with the
/// last entry: acknowledgements usually arrive in sending order, so the hit
/// sits near the front, and a swap keeps the removal constant-time.
fn ack_packet_inner(conn_info: &mut NodeConnectionInfo, msg_id: usize) -> (r: bool)
    ensures
        ack_removal_post(
            old(conn_info).un_ack_messages@,
            msg_id,
            final(conn_info).un_ack_messages@,
            r,
        ),
        final(conn_info).out_msg_id == old(conn_info).out_msg_id,
        final(conn_info).in_msg_id == old(conn_info).in_msg_id,
{
    let ghost base = conn_info.un_ack_messages@;
    let mut i: usize = 0;
    while i < conn_info.un_ack_messages.len()
        invariant
            conn_info.un_ack_messages@ == base,
            base == old(conn_info).un_ack_messages@,
            conn_info.out_msg_id == old(conn_info).out_msg_id,
            conn_info.in_msg_id == old(conn_info).in_msg_id,
            0 <= i <= base.len(),
            forall|j: int| 0 <= j < i ==> base[j].msg_id != Some(msg_id),
        decreases base.len() - i,
    {
        let found = match conn_info.un_ack_messages[i].msg_id {
            Some(id) => id == msg_id,
            None => false,
        };
        if found {
            proof {
                lemma_first_unack_idx(base, msg_id);
            }
            conn_info.un_ack_messages.swap_remove(i);
            return true;
        }
        i = i + 1;
    }
    false
}

/// All fields of the node state except the connection map are unchanged.
pub open spec fn same_but_conn(st0: NodeInfo, st1: NodeInfo) -> bool {
    &&& st1.node_id == st0.node_id
    &&& st1.client_nodes == st0.client_nodes
    &&& st1.server_nodes == st0.server_nodes
    &&& st1.node_ids == st0.node_ids
    &&& st1.topology == st0.topology
    &&& st1.broadcast_topology == st0.broadcast_topology
    &&& st1.node_number == st0.node_number
    &&& st1.msg_number == st0.msg_number
}

/// What stamping an outbound envelope for peer `dest` does: a known peer
/// whose counter has room hands out the next sequence number; an unknown
/// destination (a client), or a counter with no room left, stamps nothing
/// and changes nothing.
pub open spec fn stamped(
    st0: NodeInfo,
    dest: Seq<char>,
    st1: NodeInfo,
    id: Option<usize>,
) -> bool {
    &&& same_but_conn(st0, st1)
    &&& if conn_has(st0.conn_info@, dest) {
        let i = conn_index_of(st0.conn_info@, dest);
        let c = st0.conn_info@[i].1;
        if c.out_msg_id < usize::MAX {
            &&& id == Some((c.out_msg_id + 1) as usize)
            &&& st1.conn_info@ == st0.conn_info@.update(
                i,
                (
                    st0.conn_info@[i].0,
                    NodeConnectionInfo {
                        out_msg_id: (c.out_msg_id + 1) as usize,
                        in_msg_id: c.in_msg_id,
                        un_ack_messages: c.un_ack_messages,
                    },
                ),
            )
        } else {
            id is None && st1.conn_info@ == st0.conn_info@
        }
    } else {
        id is None && st1.conn_info@ == st0.conn_info@
    }
}

/// What materializing one response descriptor yields: the envelope the
/// descriptor describes, with `src` defaulted to the local node id, reply
/// routing taken from the triggering envelope, and a sequence number
/// stamped exactly for the acknowledged kinds.
pub open spec fn create_post(
    st0: NodeInfo,
    trigger: Packet,
    resp: MessageResponse,
    st1: NodeInfo,
    pkt: Packet,
) -> bool {
    match resp {
        MessageResponse::NoAck { src, dest, in_reply_to, payload } => {
            &&& st1 == st0
            &&& pkt.src == (if src is Some {
                src->0
            } else {
                st0.node_id
            })
            &&& pkt.dest == dest
            &&& pkt.body == (Message { msg_id: None, in_reply_to, payload })
        },
        MessageResponse::Ack { src, dest, in_reply_to, payload } => {
            &&& stamped(st0, dest@, st1, pkt.body.msg_id)
            &&& pkt.src == (if src is Some {
                src->0
            } else {
                st0.node_id
            })
            &&& pkt.dest == dest
            &&& pkt.body.in_reply_to == in_reply_to
            &&& pkt.body.payload == payload
        },
        MessageResponse::Response { payload } => {
            &&& st1 == st0
            &&& pkt == (Packet {
                src: trigger.dest,
                dest: trigger.src,
                body: Message {
                    msg_id: None,
                    in_reply_to: trigger.body.msg_id,
                    payload,
                },
            })
        },
        MessageResponse::ResponseWithAck { payload } => {
            &&& stamped(st0, trigger.src@, st1, pkt.body.msg_id)
            &&& pkt.src == trigger.dest
            &&& pkt.dest == trigger.src
            &&& pkt.body.in_reply_to == trigger.body.msg_id
            &&& pkt.body.payload == payload
        },
    }
}

/// The single-threaded dispatch engine: it owns the node state and the
/// handler registry, and turns one inbound envelope at a time into the
/// envelopes to send, updating sequence bookkeeping on the way.  Reading
/// and writing the wire is its caller's business.
#[derive(Debug)]
pub struct PacketHandler {
    pub state: Option<NodeInfo>,
    pub handlers: Vec<Handler>,
}

impl PacketHandler {
    /// A fresh engine: no node state yet, no handlers.
    pub fn new() -> (r: Self)
        ensures
            r.state is None,
            r.handlers@ == Seq::<Handler>::empty(),
    {
        PacketHandler { state: None, handlers: Vec::new() }
    }

    /// Register a handler behind the already registered ones.
    pub fn add_handler(&mut self, handler: Handler)
        ensures
            final(self).handlers@ == old(self).handlers@.push(handler),
            final(self).state == old(self).state,
    {
        self.handlers.push(handler);
    }

    /// Whether the `init` handshake has happened.
    pub fn is_initialized(&self) -> (r: bool)
        ensures
            r == (self.state is Some),
    {
        self.state.is_some()
    }

    /// The node state; the handshake must have happened.
    pub fn get_state(&self) -> (r: &NodeInfo)
        requires
            self.state is Some,
        ensures
            *r == self.state->0,
    {
        self.state.as_ref().unwrap()
    }

    /// This node's own id.
    pub fn get_node_id(&self) -> (r: &String)
        requires
            self.state is Some,
        ensures
            r@ == self.state->0.node_id@,
    {
        &self.get_state().node_id
    }

    /// A bare acknowledgement envelope for the peer's sequence number
    /// `msg_id`.
    pub fn create_ack(&self, dest: String, msg_id: usize) -> (r: Packet)
        requires
            self.state is Some,
        ensures
            r.src == self.state->0.node_id,
            r.dest == dest,
            r.body == (Message {
                msg_id: None,
                in_reply_to: Some(msg_id),
                payload: Payload::Ack,
            }),
    {
        Packet {
            src: self.get_state().node_id.clone(),
            dest,
            body: Message {
                msg_id: None,
                in_reply_to: Some(msg_id),
                payload: Payload::Ack,
            },
        }
    }

    /// Materialize one response descriptor into an envelope, stamping an
    /// outbound sequence number for the acknowledged kinds.
    fn create_packet(&mut self, trigger: &Packet, response: MessageResponse) -> (r: Packet)
        requires
            old(self).state is Some,
        ensures
            final(self).state is Some,
            final(self).handlers == old(self).handlers,
            create_post(old(self).state->0, *trigger, response, final(self).state->0, r),
    {
        match response {
            MessageResponse::NoAck { src, dest, in_reply_to, payload } => {
                let src = match src {
                    Some(s) => s,
                    None => self.get_state().node_id.clone(),
                };
                Packet { src, dest, body: Message { msg_id: None, in_reply_to, payload } }
            },
            MessageResponse::Ack { src, dest, in_reply_to, payload } => {
                let msg_id = self.stamp_for(&dest);
                let src = match src {
                    Some(s) => s,
                    None => self.get_state().node_id.clone(),
                };
                Packet { src, dest, body: Message { msg_id, in_reply_to, payload } }
            },
            MessageResponse::Response { payload } => {
                let src = trigger.dest.clone();
                let dest = trigger.src.clone();
                Packet {
                    src,
                    dest,
                    body: Message {
                        msg_id: None,
                        in_reply_to: trigger.body.msg_id,
                        payload,
                    },
                }
            },
            MessageResponse::ResponseWithAck { payload } => {
                let msg_id = self.stamp_for(&trigger.src);
                let src = trigger.dest.clone();
                let dest = trigger.src.clone();
                Packet {
                    src,
                    dest,
                    body: Message {
                        msg_id,
                        in_reply_to: trigger.body.msg_id,
                        payload,
                    },
                }
            },
        }
    }

    /// Draw the next outbound sequence number for peer `dest`, if `dest` is
    /// a known peer whose counter has room.
    fn stamp_for(&mut self, dest: &String) -> (r: Option<usize>)
        requires
            old(self).state is Some,
        ensures
            final(self).state is Some,
            final(self).handlers == old(self).handlers,
            stamped(old(self).state->0, dest@, final(self).state->0, r),
    {
        match &mut self.state {
            Some(st) => {
                match conn_find(&st.conn_info, dest) {
                    Some(i) => {
                        let ghost pre = st.conn_info@;
                        let entry = &mut st.conn_info[i];
                        if entry.1.out_msg_id < usize::MAX {
                            entry.1.out_msg_id = entry.1.out_msg_id + 1;
                            let id = entry.1.out_msg_id;
                            proof {
                                assert(st.conn_info@ =~= pre.update(
                                    i as int,
                                    (
                                        pre[i as int].0,
                                        NodeConnectionInfo {
                                            out_msg_id: id,
                                            in_msg_id: pre[i as int].1.in_msg_id,
                                            un_ack_messages: pre[i as int].1.un_ack_messages,
                                        },
                                    ),
                                ));
                            }
                            Some(id)
                        } else {
                            proof {
                                assert(st.conn_info@ =~= pre);
                            }
                            None
                        }
                    },
                    None => None,
                }
            },
            None => vstd::pervasive::unreached(),
        }
    }

    /// Buffer an outbound envelope that carries a sequence number until its
    /// destination peer acknowledges it; envelopes without a number, or to
    /// destinations without connection state, are not buffered.
    fn add_packet_to_ack(&mut self, packet: &Packet)
        requires
            old(self).state is Some,
        ensures
            final(self).state is Some,
            final(self).handlers == old(self).handlers,
            enroll_post(old(self).state->0, *packet, final(self).state->0),
    {
        self.enroll_message(&packet.dest, &packet.body);
    }

    /// Remove from peer `src`'s buffer the envelope that `msg_id`
    /// acknowledges; destinations without connection state are ignored.
    fn ack_packet(&mut self, src: &String, msg_id: usize) -> (r: bool)
        requires
            old(self).state is Some,
        ensures
            final(self).state is Some,
            final(self).handlers == old(self).handlers,
            ack_post(old(self).state->0, src@, msg_id, final(self).state->0, r),
    {
        match &mut self.state {
            Some(st) => {
                match conn_find(&st.conn_info, src) {
                    Some(i) => {
                        let ghost pre = st.conn_info@;
                        let entry = &mut st.conn_info[i];
                        let r = ack_packet_inner(&mut entry.1, msg_id);
                        proof {
                            assert(st.conn_info@ =~= pre.update(
                                i as int,
                                (pre[i as int].0, st.conn_info@[i as int].1),
                            ));
                        }
                        r
                    },
                    None => false,
                }
            },
            None => vstd::pervasive::unreached(),
        }
    }
}

/// What buffering one outbound envelope does to the node state: its body
/// is buffered for its destination exactly as `enroll_msg_post` says.
pub open spec fn enroll_post(st0: NodeInfo, pkt: Packet, st1: NodeInfo) -> bool {
    enroll_msg_post(st0, pkt.dest@, pkt.body, st1)
}

/// The engine's identity never changes after the handshake: who this node
/// is, who its peers are, and its numbers are fixed at `init`.
pub open spec fn same_identity(st0: NodeInfo, st1: NodeInfo) -> bool {
    &&& st1.node_id == st0.node_id
    &&& st1.client_nodes == st0.client_nodes
    &&& st1.server_nodes == st0.server_nodes
    &&& st1.node_ids == st0.node_ids
    &&& st1.node_number == st0.node_number
    &&& st1.msg_number == st0.msg_number
}

/// Enough counter headroom in every registered generate handler to answer
/// `n` more unique-id requests without overflowing.
pub open spec fn generate_budget(hs: Seq<Handler>, st: NodeInfo, n: nat) -> bool {
    forall|i: int|
        0 <= i < hs.len() ==> match #[trigger] hs[i] {
            Handler::Generate(g) => g.counter + n <= usize::MAX && (g.counter + n)
                * st.node_ids@.len() + st.node_number <= usize::MAX,
            _ => true,
        }
}

/// A positive budget lets one more envelope through every handler.
proof fn lemma_budget_ready(hs: Seq<Handler>, st: NodeInfo, n: nat, packet: Packet)
    requires
        generate_budget(hs, st, n),
        n >= 1,
    ensures
        forall|i: int| 0 <= i < hs.len() ==> (#[trigger] hs[i]).ready(&packet, &st),
{
    assert forall|i: int| 0 <= i < hs.len() implies (#[trigger] hs[i]).ready(&packet, &st) by {
        match hs[i] {
            Handler::Generate(g) => {
                assert((g.counter + 1) * st.node_ids@.len() <= (g.counter + n)
                    * st.node_ids@.len()) by (nonlinear_arith)
                    requires
                        g.counter + 1 <= g.counter + n,
                        st.node_ids@.len() >= 0,
                ;
            },
            _ => {},
        }
    }
}

/// The fan-out relation: the handlers, offered `packet` in registry order
/// against the read-only state `st`, evolve one by one as their own
/// contracts say, and `descs` is the concatenation of their answers.
pub open spec fn fanout_post(
    hs0: Seq<Handler>,
    packet: Packet,
    st: NodeInfo,
    hs1: Seq<Handler>,
    descs: Seq<MessageResponse>,
) -> bool
    decreases hs0.len(),
{
    if hs0.len() == 0 {
        hs1.len() == 0 && descs == Seq::<MessageResponse>::empty()
    } else {
        &&& hs1.len() == hs0.len()
        &&& exists|d0: Seq<MessageResponse>, rest: Seq<MessageResponse>|
            #![auto]
            descs == d0 + rest && Handler::responses_ok(hs0[0], packet, st, hs1[0], d0)
                && fanout_post(hs0.drop_first(), packet, st, hs1.drop_first(), rest)
    }
}

/// Handing one envelope to every handler spends at most one unit of
/// budget.
proof fn lemma_budget_spend(
    hs0: Seq<Handler>,
    st: NodeInfo,
    n: nat,
    packet: Packet,
    hs1: Seq<Handler>,
    descs: Seq<MessageResponse>,
)
    requires
        generate_budget(hs0, st, n),
        n >= 1,
        fanout_post(hs0, packet, st, hs1, descs),
    ensures
        generate_budget(hs1, st, (n - 1) as nat),
    decreases hs0.len(),
{
    if hs0.len() > 0 {
        let (d0, rest) = choose|d0: Seq<MessageResponse>, rest: Seq<MessageResponse>|
            #![auto]
            descs == d0 + rest && Handler::responses_ok(hs0[0], packet, st, hs1[0], d0)
                && fanout_post(hs0.drop_first(), packet, st, hs1.drop_first(), rest);
        assert(generate_budget(hs0.drop_first(), st, n)) by {
            assert forall|i: int|
                0 <= i < hs0.drop_first().len() implies match #[trigger] hs0.drop_first()[i] {
                Handler::Generate(g) => g.counter + n <= usize::MAX && (g.counter + n)
                    * st.node_ids@.len() + st.node_number <= usize::MAX,
                _ => true,
            } by {
                assert(hs0.drop_first()[i] == hs0[i + 1]);
            }
        }
        lemma_budget_spend(hs0.drop_first(), st, n, packet, hs1.drop_first(), rest);
        assert forall|i: int|
            0 <= i < hs1.len() implies match #[trigger] hs1[i] {
            Handler::Generate(g) => g.counter + (n - 1) <= usize::MAX && (g.counter + (n - 1))
                * st.node_ids@.len() + st.node_number <= usize::MAX,
            _ => true,
        } by {
            if i == 0 {
                match (hs0[0], hs1[0]) {
                    (Handler::Generate(a), Handler::Generate(b)) => {
                        assert((b.counter + (n - 1)) * st.node_ids@.len() <= (a.counter + n)
                            * st.node_ids@.len()) by (nonlinear_arith)
                            requires
                                b.counter + (n - 1) <= a.counter + n,
                                st.node_ids@.len() >= 0,
                        ;
                    },
                    _ => {},
                }
            } else {
                assert(hs1.drop_first()[i - 1] == hs1[i]);
            }
        }
    }
}

/// Extending a fan-out by one more handler appends that handler's answers.
proof fn lemma_fanout_push(
    hs0: Seq<Handler>,
    packet: Packet,
    st: NodeInfo,
    hs1: Seq<Handler>,
    descs: Seq<MessageResponse>,
    h0: Handler,
    h1: Handler,
    d: Seq<MessageResponse>,
)
    requires
        fanout_post(hs0, packet, st, hs1, descs),
        Handler::responses_ok(h0, packet, st, h1, d),
    ensures
        fanout_post(hs0.push(h0), packet, st, hs1.push(h1), descs + d),
    decreases hs0.len(),
{
    if hs0.len() == 0 {
        assert(descs + d =~= d + Seq::<MessageResponse>::empty());
        assert(hs0.push(h0).drop_first() =~= Seq::<Handler>::empty());
        assert(hs1.push(h1).drop_first() =~= Seq::<Handler>::empty());
        assert(fanout_post(
            hs0.push(h0).drop_first(),
            packet,
            st,
            hs1.push(h1).drop_first(),
            Seq::<MessageResponse>::empty(),
        ));
        assert(hs0.push(h0)[0] == h0 && hs1.push(h1)[0] == h1);
    } else {
        let (d0, rest) = choose|d0: Seq<MessageResponse>, rest: Seq<MessageResponse>|
            #![auto]
            descs == d0 + rest && Handler::responses_ok(hs0[0], packet, st, hs1[0], d0)
                && fanout_post(hs0.drop_first(), packet, st, hs1.drop_first(), rest);
        lemma_fanout_push(hs0.drop_first(), packet, st, hs1.drop_first(), rest, h0, h1, d);
        assert(hs0.push(h0).drop_first() =~= hs0.drop_first().push(h0));
        assert(hs1.push(h1).drop_first() =~= hs1.drop_first().push(h1));
        assert(descs + d =~= d0 + (rest + d));
        assert(hs0.push(h0)[0] == hs0[0] && hs1.push(h1)[0] == hs1[0]);
    }
}

/// A materialization trace: the node states the engine passes through
/// while the descriptors become envelopes one by one through
/// `create_post`.
pub open spec fn materialize_trace(
    tr: Seq<NodeInfo>,
    trigger: Packet,
    descs: Seq<MessageResponse>,
    pkts: Seq<Packet>,
) -> bool {
    &&& tr.len() == descs.len() + 1
    &&& pkts.len() == descs.len()
    &&& forall|i: int|
        0 <= i < descs.len() ==> create_post(tr[i], trigger, #[trigger] descs[i], tr[i + 1], pkts[i])
}

/// The materialization relation: some trace of node states turns the
/// descriptors into the envelopes, threading the sequence counters
/// through.
pub open spec fn materialize_post(
    st0: NodeInfo,
    trigger: Packet,
    descs: Seq<MessageResponse>,
    st1: NodeInfo,
    pkts: Seq<Packet>,
) -> bool {
    exists|tr: Seq<NodeInfo>|
        #![trigger materialize_trace(tr, trigger, descs, pkts)]
        materialize_trace(tr, trigger, descs, pkts) && tr[0] == st0 && tr.last() == st1
}

/// The connection map's keys and inbound statuses are unchanged: only
/// counters and buffers may move.
pub open spec fn statuses_preserved(st0: NodeInfo, st1: NodeInfo) -> bool {
    &&& st1.conn_info@.len() == st0.conn_info@.len()
    &&& forall|j: int|
        0 <= j < st0.conn_info@.len() ==> (#[trigger] st1.conn_info@[j]).0 == st0.conn_info@[j].0
            && st1.conn_info@[j].1.in_msg_id == st0.conn_info@[j].1.in_msg_id
}

/// Maps with the same keys agree on key lookups.
proof fn lemma_conn_same_keys(
    s0: Seq<(String, NodeConnectionInfo)>,
    s1: Seq<(String, NodeConnectionInfo)>,
    k: Seq<char>,
)
    requires
        s0.len() == s1.len(),
        forall|j: int| 0 <= j < s0.len() ==> (#[trigger] s1[j]).0@ == s0[j].0@,
    ensures
        conn_has(s0, k) == conn_has(s1, k),
        conn_has(s0, k) ==> conn_index_of(s0, k) == conn_index_of(s1, k),
    decreases s0.len(),
{
    if s0.len() > 0 {
        assert forall|j: int|
            0 <= j < s0.drop_first().len() implies (#[trigger] s1.drop_first()[j]).0@
            == s0.drop_first()[j].0@ by {
            assert(s0.drop_first()[j] == s0[j + 1]);
            assert(s1.drop_first()[j] == s1[j + 1]);
        }
        lemma_conn_same_keys(s0.drop_first(), s1.drop_first(), k);
        if conn_has(s0, k) {
            let i = choose|i: int| 0 <= i < s0.len() && s0[i].0@ == k;
            assert(s1[i].0@ == k);
        }
        if conn_has(s1, k) {
            let i = choose|i: int| 0 <= i < s1.len() && s1[i].0@ == k;
            assert(s0[i].0@ == k);
        }
        if conn_has(s0, k) && s0[0].0@ != k {
            assert(conn_has(s0.drop_first(), k)) by {
                let i = choose|i: int| 0 <= i < s0.len() && s0[i].0@ == k;
                assert(s0.drop_first()[i - 1].0@ == k);
            }
        }
    } else {
        assert(!conn_has(s0, k));
        assert(!conn_has(s1, k));
    }
}

/// Along a materialization trace, only the connection map's counters and
/// buffers change.
proof fn lemma_trace_identity(
    tr: Seq<NodeInfo>,
    trigger: Packet,
    descs: Seq<MessageResponse>,
    pkts: Seq<Packet>,
    i: int,
    j: int,
)
    requires
        materialize_trace(tr, trigger, descs, pkts),
        0 <= i <= j < tr.len(),
    ensures
        same_identity(tr[i], tr[j]),
        tr[j].topology == tr[i].topology,
        tr[j].broadcast_topology == tr[i].broadcast_topology,
        statuses_preserved(tr[i], tr[j]),
    decreases j - i,
{
    if i < j {
        lemma_trace_identity(tr, trigger, descs, pkts, i, j - 1);
        assert(create_post(tr[j - 1], trigger, descs[j - 1], tr[j], pkts[j - 1]));
        match descs[j - 1] {
            MessageResponse::NoAck { .. } => {},
            MessageResponse::Ack { dest, .. } => {
                if conn_has(tr[j - 1].conn_info@, dest@) {
                    lemma_conn_index_of(tr[j - 1].conn_info@, dest@);
                }
            },
            MessageResponse::Response { .. } => {},
            MessageResponse::ResponseWithAck { .. } => {
                if conn_has(tr[j - 1].conn_info@, trigger.src@) {
                    lemma_conn_index_of(tr[j - 1].conn_info@, trigger.src@);
                }
            },
        }
        assert(statuses_preserved(tr[j - 1], tr[j]));
        assert forall|m: int|
            0 <= m < tr[i].conn_info@.len() implies ((#[trigger] tr[j].conn_info@[m]).0
            == tr[i].conn_info@[m].0 && tr[j].conn_info@[m].1.in_msg_id
            == tr[i].conn_info@[m].1.in_msg_id) by {
            assert(tr[j - 1].conn_info@[m].0 == tr[i].conn_info@[m].0);
            assert(tr[j - 1].conn_info@[m].1.in_msg_id == tr[i].conn_info@[m].1.in_msg_id);
        }
    }
}

/// What acknowledging `msg_id` from peer `src` does to the node state: the
/// matching envelope leaves that peer's buffer; a sender without connection
/// state changes nothing.
pub open spec fn ack_post(
    st0: NodeInfo,
    src: Seq<char>,
    msg_id: usize,
    st1: NodeInfo,
    r: bool,
) -> bool {
    if conn_has(st0.conn_info@, src) {
        let i = conn_index_of(st0.conn_info@, src);
        &&& same_but_conn(st0, st1)
        &&& st1.conn_info@ == st0.conn_info@.update(
            i,
            (
                st0.conn_info@[i].0,
                NodeConnectionInfo {
                    out_msg_id: st0.conn_info@[i].1.out_msg_id,
                    in_msg_id: st0.conn_info@[i].1.in_msg_id,
                    un_ack_messages: st1.conn_info@[i].1.un_ack_messages,
                },
            ),
        )
        &&& ack_removal_post(
            st0.conn_info@[i].1.un_ack_messages@,
            msg_id,
            st1.conn_info@[i].1.un_ack_messages@,
            r,
        )
    } else {
        !r && st1 == st0
    }
}

/// A smaller budget is implied by a larger one.
proof fn lemma_budget_mono(hs: Seq<Handler>, st: NodeInfo, n: nat, m: nat)
    requires
        generate_budget(hs, st, n),
        m <= n,
    ensures
        generate_budget(hs, st, m),
{
    assert forall|i: int|
        0 <= i < hs.len() implies match #[trigger] hs[i] {
        Handler::Generate(g) => g.counter + m <= usize::MAX && (g.counter + m) * st.node_ids@.len()
            + st.node_number <= usize::MAX,
        _ => true,
    } by {
        match hs[i] {
            Handler::Generate(g) => {
                assert((g.counter + m) * st.node_ids@.len() <= (g.counter + n)
                    * st.node_ids@.len()) by (nonlinear_arith)
                    requires
                        g.counter + m <= g.counter + n,
                        st.node_ids@.len() >= 0,
                ;
            },
            _ => {},
        }
    }
}

/// The budget depends only on the node count and the node number, which
/// never change.
proof fn lemma_budget_transfer(hs: Seq<Handler>, st0: NodeInfo, st1: NodeInfo, n: nat)
    requires
        generate_budget(hs, st0, n),
        st1.node_ids == st0.node_ids,
        st1.node_number == st0.node_number,
    ensures
        generate_budget(hs, st1, n),
{
}

/// The concatenation of the per-message answer collections of a batch.
pub open spec fn concat_views(rcs: Seq<Collection<Packet>>) -> Seq<Packet>
    decreases rcs.len(),
{
    if rcs.len() == 0 {
        Seq::empty()
    } else {
        rcs[0]@ + concat_views(rcs.drop_first())
    }
}

/// Appending one answer collection appends its values.
proof fn lemma_concat_views_push(rcs: Seq<Collection<Packet>>, c: Collection<Packet>)
    ensures
        concat_views(rcs.push(c)) == concat_views(rcs) + c@,
    decreases rcs.len(),
{
    if rcs.len() == 0 {
        assert(rcs.push(c).drop_first() =~= Seq::<Collection<Packet>>::empty());
        assert(rcs.push(c)[0] == c);
        assert(concat_views(Seq::<Collection<Packet>>::empty()) =~= Seq::<Packet>::empty());
        assert(concat_views(rcs.push(c)) =~= c@);
        assert(concat_views(rcs) + c@ =~= c@);
    } else {
        lemma_concat_views_push(rcs.drop_first(), c);
        assert(rcs.push(c).drop_first() =~= rcs.drop_first().push(c));
        assert(rcs.push(c)[0] == rcs[0]);
        assert(rcs[0]@ + (concat_views(rcs.drop_first()) + c@) =~= (rcs[0]@ + concat_views(
            rcs.drop_first(),
        )) + c@);
    }
}

/// How deeply batches nest inside a payload: zero for anything that is
/// not a batch, one more than the deepest enclosed message for a batch.
/// This is the measure that makes recursive batch handling well-founded.
pub open spec fn payload_height(p: Payload) -> nat
    decreases p,
{
    match p {
        Payload::Batch { messages } => {
            proof {
                assert(decreases_to!(p => p->Batch_messages));
                assert(decreases_to!(p->Batch_messages => p->Batch_messages@));
            }
            1 + messages_height(messages@)
        },
        _ => 0,
    }
}

/// The deepest batch nesting among a sequence of messages.
pub open spec fn messages_height(s: Seq<Message>) -> nat
    decreases s,
{
    if s.len() == 0 {
        0
    } else {
        proof {
            assert(decreases_to!(s => s[0]));
            assert(decreases_to!(s[0] => s[0].payload));
            assert(decreases_to!(s => s.drop_first()));
        }
        let h0 = payload_height(s[0].payload);
        let hr = messages_height(s.drop_first());
        if h0 > hr {
            h0
        } else {
            hr
        }
    }
}

/// No enclosed message nests deeper than the sequence's own height.
pub proof fn lemma_messages_height_ge(s: Seq<Message>, i: int)
    requires
        0 <= i < s.len(),
    ensures
        payload_height(s[i].payload) <= messages_height(s),
    decreases i,
{
    if i > 0 {
        lemma_messages_height_ge(s.drop_first(), i - 1);
        assert(s.drop_first()[i - 1] == s[i]);
    }
}

/// How much generate budget one envelope may consume: one unit for a
/// plain envelope, and one unit plus its members' weights for a batch,
/// counted through every nesting level.
pub open spec fn payload_weight(p: Payload) -> nat
    decreases p,
{
    match p {
        Payload::Batch { messages } => {
            proof {
                assert(decreases_to!(p => p->Batch_messages));
                assert(decreases_to!(p->Batch_messages => p->Batch_messages@));
            }
            1 + messages_weight(messages@)
        },
        _ => 1,
    }
}

/// The total weight of a sequence of messages.
pub open spec fn messages_weight(s: Seq<Message>) -> nat
    decreases s,
{
    if s.len() == 0 {
        0
    } else {
        proof {
            assert(decreases_to!(s => s[0]));
            assert(decreases_to!(s[0] => s[0].payload));
            assert(decreases_to!(s => s.drop_first()));
        }
        payload_weight(s[0].payload) + messages_weight(s.drop_first())
    }
}

/// Appending one message adds its weight.
proof fn lemma_messages_weight_push(s: Seq<Message>, m: Message)
    ensures
        messages_weight(s.push(m)) == messages_weight(s) + payload_weight(m.payload),
    decreases s.len(),
{
    if s.len() == 0 {
        assert(s.push(m)[0] == m);
        assert(s.push(m).drop_first() =~= Seq::<Message>::empty());
        assert(messages_weight(Seq::<Message>::empty()) == 0);
    } else {
        lemma_messages_weight_push(s.drop_first(), m);
        assert(s.push(m).drop_first() =~= s.drop_first().push(m));
        assert(s.push(m)[0] == s[0]);
    }
}

/// The budget one envelope's handling may consume.
pub open spec fn step_weight(packet: Packet) -> nat {
    payload_weight(packet.body.payload)
}

/// A batch trace: the node states and handler registries passed through
/// while the enclosed messages are handled one by one, each as if it had
/// arrived as its own envelope with the batch's addresses — so an
/// enclosed batch is flattened in turn.
pub open spec fn batch_trace(
    st_tr: Seq<NodeInfo>,
    hs_tr: Seq<Seq<Handler>>,
    src: String,
    dest: String,
    messages: Seq<Message>,
    rcs: Seq<Collection<Packet>>,
) -> bool
    decreases messages_height(messages), 2nat,
{
    proof {
        assert forall|i: int|
            0 <= i < messages.len() implies payload_height((#[trigger] messages[i]).payload)
            <= messages_height(messages) by {
            lemma_messages_height_ge(messages, i);
        }
    }
    &&& st_tr.len() == messages.len() + 1
    &&& hs_tr.len() == messages.len() + 1
    &&& rcs.len() == messages.len()
    &&& forall|i: int|
        0 <= i < messages.len() ==> handle_post(
            st_tr[i],
            hs_tr[i],
            Packet { src, dest, body: #[trigger] messages[i] },
            st_tr[i + 1],
            hs_tr[i + 1],
            rcs[i],
        )
}

/// A trigger marker for choosing a batch trace.
pub open spec fn batch_witness(
    st_tr: Seq<NodeInfo>,
    hs_tr: Seq<Seq<Handler>>,
    rcs: Seq<Collection<Packet>>,
) -> bool {
    true
}

/// What handling a batch does: its messages are handled in order, and the
/// answers are concatenated in order.
pub open spec fn batch_post(
    st0: NodeInfo,
    hs0: Seq<Handler>,
    src: String,
    dest: String,
    messages: Seq<Message>,
    st1: NodeInfo,
    hs1: Seq<Handler>,
    r: Seq<Packet>,
) -> bool
    decreases messages_height(messages), 3nat,
{
    exists|st_tr: Seq<NodeInfo>, hs_tr: Seq<Seq<Handler>>, rcs: Seq<Collection<Packet>>|
        #![trigger batch_witness(st_tr, hs_tr, rcs)]
        batch_trace(st_tr, hs_tr, src, dest, messages, rcs) && st_tr[0] == st0 && st_tr.last()
            == st1 && hs_tr[0] == hs0 && hs_tr.last() == hs1 && r == concat_views(rcs)
}

/// A batch trace with matching endpoints witnesses `batch_post`.
pub proof fn lemma_batch_post_intro(
    st_tr: Seq<NodeInfo>,
    hs_tr: Seq<Seq<Handler>>,
    rcs: Seq<Collection<Packet>>,
    st0: NodeInfo,
    hs0: Seq<Handler>,
    src: String,
    dest: String,
    messages: Seq<Message>,
    st1: NodeInfo,
    hs1: Seq<Handler>,
    r: Seq<Packet>,
)
    requires
        batch_trace(st_tr, hs_tr, src, dest, messages, rcs),
        st_tr[0] == st0,
        st_tr.last() == st1,
        hs_tr[0] == hs0,
        hs_tr.last() == hs1,
        r == concat_views(rcs),
    ensures
        batch_post(st0, hs0, src, dest, messages, st1, hs1, r),
{
    assert(batch_witness(st_tr, hs_tr, rcs));
}

/// What routing one envelope through the engine's dispatch decides: a
/// batch is flattened into per-message handling, recursively, anything
/// else is handled singly.
pub open spec fn handle_post(
    st0: NodeInfo,
    hs0: Seq<Handler>,
    packet: Packet,
    st1: NodeInfo,
    hs1: Seq<Handler>,
    rc: Collection<Packet>,
) -> bool
    decreases payload_height(packet.body.payload), 1nat,
{
    match packet.body.payload {
        Payload::Batch { messages } => {
            proof {
                assert(payload_height(packet.body.payload) == 1 + messages_height(messages@));
            }
            &&& (rc matches Collection::Multiple(_))
            &&& batch_post(st0, hs0, packet.src, packet.dest, messages@, st1, hs1, rc@)
        },
        _ => single_post(st0, hs0, packet, st1, hs1, rc),
    }
}

/// The messages of `s` that carry a sequence number, in order.
pub open spec fn stamped_of(s: Seq<Message>) -> Seq<Message> {
    s.filter(|m: Message| m.msg_id is Some)
}

/// Filtering for stamped messages commutes with appending one message.
proof fn lemma_stamped_push(s: Seq<Message>, m: Message)
    ensures
        m.msg_id is Some ==> stamped_of(s.push(m)) == stamped_of(s).push(m),
        m.msg_id is None ==> stamped_of(s.push(m)) == stamped_of(s),
{
    reveal(Seq::filter);
    assert(s.push(m).drop_last() =~= s);
    assert(s.push(m).last() == m);
    assert(s.push(m).len() == s.len() + 1);
}

/// True when some envelope of `ps` is addressed to `d`.
pub open spec fn has_dest(ps: Seq<Packet>, d: Seq<char>) -> bool {
    exists|i: int| 0 <= i < ps.len() && ps[i].dest@ == d
}

/// The envelopes of `ps` addressed to `d`, in order.
pub open spec fn group_pkts(ps: Seq<Packet>, d: Seq<char>) -> Seq<Packet> {
    ps.filter(|p: Packet| p.dest@ == d)
}

/// The bodies of a sequence of envelopes, in order.
pub open spec fn bodies_of(ps: Seq<Packet>) -> Seq<Message> {
    ps.map_values(|p: Packet| p.body)
}

/// A per-destination grouping of `ps`: one non-empty entry per destination
/// that occurs, holding exactly that destination's envelopes in emission
/// order.  The order of the groups themselves is not pinned down:
/// envelopes to different peers may leave in any order within a step.
pub open spec fn grouping_ok(ps: Seq<Packet>, gs: Seq<(String, Vec<Packet>)>) -> bool {
    &&& forall|k1: int, k2: int| 0 <= k1 < k2 < gs.len() ==> gs[k1].0@ != gs[k2].0@
    &&& forall|k: int| 0 <= k < gs.len() ==> has_dest(ps, (#[trigger] gs[k]).0@)
    &&& forall|i: int|
        0 <= i < ps.len() ==> exists|k: int| 0 <= k < gs.len() && gs[k].0@ == (#[trigger] ps[i]).dest@
    &&& forall|k: int| 0 <= k < gs.len() ==> (#[trigger] gs[k]).1@ == group_pkts(ps, gs[k].0@)
    &&& forall|k: int| 0 <= k < gs.len() ==> (#[trigger] gs[k]).1@.len() >= 1
}

/// What buffering one destination's group does: the stamped messages of
/// the group join the destination's unacknowledged buffer, faithfully
/// copied and in order; a destination without connection state buffers
/// nothing.
pub open spec fn group_enroll_post(
    st0: NodeInfo,
    key: String,
    msgs: Seq<Message>,
    st1: NodeInfo,
) -> bool {
    &&& same_identity(st0, st1)
    &&& st1.topology == st0.topology
    &&& st1.broadcast_topology == st0.broadcast_topology
    &&& if conn_has(st0.conn_info@, key@) {
        let i = conn_index_of(st0.conn_info@, key@);
        let buf0 = st0.conn_info@[i].1.un_ack_messages@;
        let buf1 = st1.conn_info@[i].1.un_ack_messages@;
        &&& st1.conn_info@.len() == st0.conn_info@.len()
        &&& forall|j: int|
            0 <= j < st0.conn_info@.len() && j != i ==> st1.conn_info@[j] == st0.conn_info@[j]
        &&& st1.conn_info@[i].0 == st0.conn_info@[i].0
        &&& st1.conn_info@[i].1.out_msg_id == st0.conn_info@[i].1.out_msg_id
        &&& st1.conn_info@[i].1.in_msg_id == st0.conn_info@[i].1.in_msg_id
        &&& buf1.len() == buf0.len() + stamped_of(msgs).len()
        &&& forall|j: int| 0 <= j < buf0.len() ==> buf1[j] == buf0[j]
        &&& forall|j: int|
            0 <= j < stamped_of(msgs).len() ==> message_eq(
                #[trigger] stamped_of(msgs)[j],
                buf1[buf0.len() + j],
            )
    } else {
        st1.conn_info == st0.conn_info
    }
}

/// An enrollment trace across the groups, in group order.
pub open spec fn groups_enroll_trace(
    tr: Seq<NodeInfo>,
    gs: Seq<(String, Vec<Packet>)>,
) -> bool {
    &&& tr.len() == gs.len() + 1
    &&& forall|k: int|
        0 <= k < gs.len() ==> group_enroll_post(
            tr[k],
            (#[trigger] gs[k]).0,
            bodies_of(gs[k].1@),
            tr[k + 1],
        )
}

/// What emitting the grouped envelopes does: a group holding one envelope
/// goes out verbatim — its source preserved, so a broadcast forwarded on a
/// peer's behalf keeps that peer as its source; a group of several is
/// wrapped into one `batch` envelope from this node.  Every stamped body
/// is buffered for its destination either way.
pub open spec fn emission_grouped(
    st0: NodeInfo,
    ps: Seq<Packet>,
    st1: NodeInfo,
    out: Seq<Packet>,
) -> bool {
    exists|gs: Seq<(String, Vec<Packet>)>, tr: Seq<NodeInfo>|
        #![trigger grouping_ok(ps, gs), groups_enroll_trace(tr, gs)]
        {
            &&& grouping_ok(ps, gs)
            &&& groups_enroll_trace(tr, gs)
            &&& tr[0] == st0
            &&& tr.last() == st1
            &&& out.len() == gs.len()
            &&& forall|k: int|
                0 <= k < gs.len() ==> {
                    let g = (#[trigger] gs[k]).1@;
                    if g.len() == 1 {
                        out[k] == g[0]
                    } else {
                        &&& out[k].src == st0.node_id
                        &&& out[k].dest == gs[k].0
                        &&& out[k].body.msg_id is None
                        &&& out[k].body.in_reply_to is None
                        &&& (out[k].body.payload matches Payload::Batch { messages } && messages@
                            == bodies_of(g))
                    }
                }
        }
}

/// What the emission stage does with the merged response collection:
/// nothing for nothing; a single envelope goes out verbatim and is
/// buffered if stamped; several envelopes are grouped by destination.
pub open spec fn emission_post(
    st0: NodeInfo,
    merged: Collection<Packet>,
    st1: NodeInfo,
    out: Seq<Packet>,
) -> bool {
    match merged {
        Collection::Empty => st1 == st0 && out.len() == 0,
        Collection::One(p) => out == seq![p] && enroll_post(st0, p, st1),
        Collection::Multiple(ps) => emission_grouped(st0, ps@, st1, out),
    }
}

/// The outcome the inbound sequence check owes for `k`.
pub open spec fn receive_outcome_of(pre: MessageSyncStatus, k: usize) -> ReceiveOutcome {
    if pre.has_received(k) {
        ReceiveOutcome::Duplicate
    } else if k > pre.spec_last() + 1 {
        ReceiveOutcome::GapDetected
    } else {
        ReceiveOutcome::Accepted
    }
}

/// What the inbound sequence check does to the node state: for a stamped
/// envelope from a known peer, that peer's inbound status takes the
/// number; a gap asks for a replay.  Unstamped envelopes and unknown
/// senders change nothing.
pub open spec fn inbound_applied(
    st0: NodeInfo,
    packet: Packet,
    st1: NodeInfo,
    needs_sync: bool,
) -> bool {
    if packet.body.msg_id is Some && conn_has(st0.conn_info@, packet.src@) {
        let k = packet.body.msg_id->0;
        let i = conn_index_of(st0.conn_info@, packet.src@);
        let c0 = st0.conn_info@[i].1;
        &&& same_but_conn(st0, st1)
        &&& st1.conn_info@.len() == st0.conn_info@.len()
        &&& forall|j: int|
            0 <= j < st0.conn_info@.len() && j != i ==> st1.conn_info@[j] == st0.conn_info@[j]
        &&& st1.conn_info@[i].0 == st0.conn_info@[i].0
        &&& st1.conn_info@[i].1.out_msg_id == c0.out_msg_id
        &&& st1.conn_info@[i].1.un_ack_messages == c0.un_ack_messages
        &&& receive_post(c0.in_msg_id, k, st1.conn_info@[i].1.in_msg_id, receive_outcome_of(c0.in_msg_id, k))
        &&& needs_sync == (receive_outcome_of(c0.in_msg_id, k) is GapDetected)
    } else {
        st1 == st0 && !needs_sync
    }
}

/// What the reply reconciliation does: an envelope echoing `k` from a
/// known peer acknowledges `k` against that peer's buffer.
pub open spec fn reply_reconciled(st0: NodeInfo, packet: Packet, st1: NodeInfo) -> bool {
    if packet.body.in_reply_to is Some && conn_has(st0.conn_info@, packet.src@) {
        ack_post(
            st0,
            packet.src@,
            packet.body.in_reply_to->0,
            st1,
            ack_outcome(st0, packet.src@, packet.body.in_reply_to->0),
        )
    } else {
        st1 == st0
    }
}

/// The intermediate values of one dispatch step, named so the step
/// contract can chain its stages.
pub struct StepTrace {
    pub st_a: NodeInfo,
    pub needs_sync: bool,
    pub st_b: NodeInfo,
    pub st_c: NodeInfo,
    pub hs_c: Seq<Handler>,
    pub rc: Collection<Packet>,
    pub merged: Collection<Packet>,
}

/// How the scheduled sync request merges with the handling results,
/// exactly as collection concatenation behaves.
pub open spec fn merged_of(
    packet: Packet,
    needs_sync: bool,
    rc: Collection<Packet>,
    merged: Collection<Packet>,
) -> bool {
    if needs_sync {
        let sp = Packet {
            src: packet.dest,
            dest: packet.src,
            body: Message { msg_id: None, in_reply_to: None, payload: Payload::SyncRequest },
        };
        match rc {
            Collection::Empty => merged == Collection::One(sp),
            _ => (merged matches Collection::Multiple(_)) && merged@ == seq![sp] + rc@,
        }
    } else {
        merged == rc
    }
}

/// The stage chain of one dispatch step on an initialized node: inbound
/// sequence check, reply reconciliation, payload dispatch, merging of a
/// scheduled sync request, and emission.
pub open spec fn step_stages(
    pre: PacketHandler,
    packet: Packet,
    post: PacketHandler,
    out: Seq<Packet>,
    w: StepTrace,
) -> bool {
    &&& inbound_applied(pre.state->0, packet, w.st_a, w.needs_sync)
    &&& reply_reconciled(w.st_a, packet, w.st_b)
    &&& handle_post(w.st_b, pre.handlers@, packet, w.st_c, w.hs_c, w.rc)
    &&& post.handlers@ == w.hs_c
    &&& merged_of(packet, w.needs_sync, w.rc, w.merged)
    &&& post.state is Some
    &&& emission_post(w.st_c, w.merged, post.state->0, out)
}

/// The client ids among the known ids, in order.
pub open spec fn client_partition(ids: Seq<String>) -> Seq<String> {
    ids.filter(|s: String| crate::types::helpers::is_client_id(s@))
}

/// The server ids among the known ids, in order.
pub open spec fn server_partition(ids: Seq<String>) -> Seq<String> {
    ids.filter(|s: String| crate::types::helpers::is_server_id(s@))
}

/// What one `init` handshake does: the first envelope must be a
/// well-formed `init`; it creates the node state — id, partitions of the
/// known ids into clients and servers, one fresh connection record per
/// server peer — and is answered with `init_ok`.  A first envelope that is
/// not an `init`, or whose node id has no parseable number, is fatal.
pub open spec fn init_post(
    pre: PacketHandler,
    packet: Packet,
    post: PacketHandler,
    r: Result<Vec<Packet>, EngineError>,
) -> bool {
    match packet.body.payload {
        Payload::Init { node_id, node_ids } => {
            if crate::types::helpers::valid_node_id_num(node_id@) {
                &&& post.handlers == pre.handlers
                &&& post.state matches Some(st)
                &&& {
                    let st = post.state->0;
                    &&& st.node_id == node_id
                    &&& st.node_ids == node_ids
                    &&& st.client_nodes@ == client_partition(node_ids@)
                    &&& st.server_nodes@ == server_partition(node_ids@)
                    &&& st.topology@.len() == 0
                    &&& st.broadcast_topology@.len() == 0
                    &&& st.node_number == crate::types::helpers::node_suffix_num(node_id@)
                    &&& st.msg_number == 0
                    &&& st.conn_info@.len() == st.server_nodes@.len()
                    &&& forall|i: int|
                        0 <= i < st.conn_info@.len() ==> (#[trigger] st.conn_info@[i]).0
                            == st.server_nodes@[i]
                    &&& forall|i: int|
                        0 <= i < st.conn_info@.len() ==> (#[trigger] st.conn_info@[i]).1.out_msg_id
                            == 0
                    &&& forall|i: int|
                        0 <= i < st.conn_info@.len() ==> (#[trigger] st.conn_info@[i]).1.in_msg_id
                            == (MessageSyncStatus::Synced { last_msg_id: 0 })
                    &&& forall|i: int|
                        0 <= i < st.conn_info@.len()
                            ==> (#[trigger] st.conn_info@[i]).1.un_ack_messages@.len() == 0
                }
                &&& r matches Ok(v)
                &&& {
                    let v = r->Ok_0;
                    &&& v@.len() == 1
                    &&& v@[0].src == node_id
                    &&& v@[0].dest == packet.src
                    &&& v@[0].body.msg_id is None
                    &&& v@[0].body.in_reply_to == packet.body.msg_id
                    &&& v@[0].body.payload is InitOk
                }
            } else {
                r == Result::<Vec<Packet>, EngineError>::Err(EngineError::InvalidNodeId) && post
                    == pre
            }
        },
        _ => r == Result::<Vec<Packet>, EngineError>::Err(EngineError::ExpectedInit) && post == pre,
    }
}

/// The full contract of one dispatch step, for every input envelope: the
/// handshake if none has happened; otherwise the silent drop of an
/// already-seen sequence number, or the whole stage chain.
pub open spec fn step_post(
    pre: PacketHandler,
    packet: Packet,
    post: PacketHandler,
    r: Result<Vec<Packet>, EngineError>,
) -> bool {
    if pre.state is None {
        init_post(pre, packet, post, r)
    } else {
        let st0 = pre.state->0;
        if packet.body.msg_id is Some && conn_has(st0.conn_info@, packet.src@) && st0.conn_info@[conn_index_of(
            st0.conn_info@,
            packet.src@,
        )].1.in_msg_id.has_received(packet.body.msg_id->0) {
            &&& post == pre
            &&& r matches Ok(v)
            &&& r->Ok_0@.len() == 0
        } else {
            &&& r matches Ok(v)
            &&& exists|w: StepTrace|
                #![trigger step_stages(pre, packet, post, r->Ok_0@, w)]
                step_stages(pre, packet, post, r->Ok_0@, w)
        }
    }
}

/// The idempotence core at the engine level: after a step that saw a
/// stamped envelope from a known peer, that envelope's sequence number
/// counts as received from that peer, and everything already received
/// stays received.  A redelivery therefore meets the silent-drop branch
/// of the step contract.
pub open spec fn step_remembers(pre: PacketHandler, packet: Packet, post: PacketHandler) -> bool {
    (pre.state is Some && packet.body.msg_id is Some && conn_has(
        pre.state->0.conn_info@,
        packet.src@,
    )) ==> {
        let i = conn_index_of(pre.state->0.conn_info@, packet.src@);
        &&& post.state is Some
        &&& conn_has(post.state->0.conn_info@, packet.src@)
        &&& conn_index_of(post.state->0.conn_info@, packet.src@) == i
        &&& post.state->0.conn_info@[i].1.in_msg_id.has_received(packet.body.msg_id->0)
        &&& forall|j: usize|
            pre.state->0.conn_info@[i].1.in_msg_id.has_received(j)
                ==> post.state->0.conn_info@[i].1.in_msg_id.has_received(j)
    }
}

/// The sequence-observation clause of the step contract: a stamped
/// envelope from a known peer drives that peer's inbound status through
/// exactly one `receive_post` transition.  Chaining these transitions
/// through `lemma_in_order_delivery_synced` gives the delivery law: a
/// loss-free, duplicate-free run of a peer's envelopes ends with that
/// peer synced at its greatest sequence number.
pub open spec fn step_observes(pre: PacketHandler, packet: Packet, post: PacketHandler) -> bool {
    (pre.state is Some && packet.body.msg_id is Some && conn_has(
        pre.state->0.conn_info@,
        packet.src@,
    )) ==> {
        let i = conn_index_of(pre.state->0.conn_info@, packet.src@);
        let before = pre.state->0.conn_info@[i].1.in_msg_id;
        &&& post.state is Some
        &&& i < post.state->0.conn_info@.len()
        &&& receive_post(
            before,
            packet.body.msg_id->0,
            post.state->0.conn_info@[i].1.in_msg_id,
            receive_outcome_of(before, packet.body.msg_id->0),
        )
    }
}

/// The cross-peer frame of one step: the connection map keeps its keys,
/// and no peer's inbound status moves except possibly the sender's — and
/// that one only for a stamped envelope.  Together with `step_observes`
/// this closes the delivery law over a whole run: in a step that carries
/// another peer's traffic, a peer's status stands still, so chaining
/// `receive_post` transitions per peer through
/// `lemma_in_order_delivery_synced` needs no other assumption.
pub open spec fn step_frames(pre: PacketHandler, packet: Packet, post: PacketHandler) -> bool {
    pre.state is Some ==> {
        &&& post.state is Some
        &&& post.state->0.conn_info@.len() == pre.state->0.conn_info@.len()
        &&& forall|m: int|
            0 <= m < pre.state->0.conn_info@.len() ==> (#[trigger] post.state->0.conn_info@[m]).0@
                == pre.state->0.conn_info@[m].0@
        &&& forall|m: int|
            0 <= m < pre.state->0.conn_info@.len() && !(packet.body.msg_id is Some && conn_has(
                pre.state->0.conn_info@,
                packet.src@,
            ) && m == conn_index_of(pre.state->0.conn_info@, packet.src@))
                ==> (#[trigger] post.state->0.conn_info@[m]).1.in_msg_id
                == pre.state->0.conn_info@[m].1.in_msg_id
    }
}

/// True when the envelope is a stamped one from peer `p`.
pub open spec fn stamped_from(pkt: Packet, p: Seq<char>) -> bool {
    pkt.src@ == p && pkt.body.msg_id is Some
}

/// How many of the first `t` envelopes are stamped ones from `p`.
pub open spec fn stamped_before(packets: Seq<Packet>, p: Seq<char>, t: int) -> nat
    decreases t,
{
    if t <= 0 {
        0
    } else {
        stamped_before(packets, p, t - 1) + (if stamped_from(packets[t - 1], p) {
            1nat
        } else {
            0nat
        })
    }
}

/// Dropping the first envelope shifts the count by its own contribution.
proof fn lemma_stamped_before_shift(packets: Seq<Packet>, p: Seq<char>, t: int)
    requires
        packets.len() >= 1,
        0 <= t <= packets.len() - 1,
    ensures
        stamped_before(packets.drop_first(), p, t) + (if stamped_from(packets[0], p) {
            1nat
        } else {
            0nat
        }) == stamped_before(packets, p, t + 1),
    decreases t,
{
    if t > 0 {
        lemma_stamped_before_shift(packets, p, t - 1);
        assert(packets.drop_first()[t - 1] == packets[t]);
        assert(stamped_before(packets.drop_first(), p, t) == stamped_before(
            packets.drop_first(),
            p,
            t - 1,
        ) + (if stamped_from(packets.drop_first()[t - 1], p) {
            1nat
        } else {
            0nat
        }));
        assert(stamped_before(packets, p, t + 1) == stamped_before(packets, p, t) + (
        if stamped_from(packets[t], p) {
            1nat
        } else {
            0nat
        }));
    } else {
        assert(stamped_before(packets.drop_first(), p, 0) == 0);
        assert(stamped_before(packets, p, 0) == 0);
        assert(stamped_before(packets, p, 1) == stamped_before(packets, p, 0) + (
        if stamped_from(packets[0], p) {
            1nat
        } else {
            0nat
        }));
    }
}

/// The delivery law over a whole run, per peer: starting synced at `base`,
/// a run of steps in which peer `p`'s stamped envelopes carry exactly the
/// consecutive numbers after `base`, in order and without loss or
/// duplication — with any amount of other traffic interleaved — ends with
/// `p` synced at its greatest sent number.  The hypotheses are exactly
/// what every `step` ensures (`step_observes` and `step_frames`).
pub proof fn lemma_run_delivery_synced(
    engines: Seq<PacketHandler>,
    packets: Seq<Packet>,
    p: Seq<char>,
    base: usize,
)
    requires
        engines.len() == packets.len() + 1,
        engines[0].state is Some,
        conn_has(engines[0].state->0.conn_info@, p),
        engines[0].state->0.conn_info@[conn_index_of(engines[0].state->0.conn_info@, p)].1.in_msg_id
            == (MessageSyncStatus::Synced { last_msg_id: base }),
        base + stamped_before(packets, p, packets.len() as int) <= usize::MAX,
        forall|t: int|
            0 <= t < packets.len() ==> step_observes(#[trigger] engines[t], packets[t], engines[t + 1]),
        forall|t: int|
            0 <= t < packets.len() ==> step_frames(#[trigger] engines[t], packets[t], engines[t + 1]),
        forall|t: int|
            0 <= t < packets.len() && stamped_from(#[trigger] packets[t], p)
                ==> packets[t].body.msg_id->0 == base + 1 + stamped_before(packets, p, t),
    ensures
        engines.last().state is Some,
        conn_has(engines.last().state->0.conn_info@, p),
        engines.last().state->0.conn_info@[conn_index_of(
            engines.last().state->0.conn_info@,
            p,
        )].1.in_msg_id == (MessageSyncStatus::Synced {
            last_msg_id: (base + stamped_before(packets, p, packets.len() as int)) as usize,
        }),
    decreases packets.len(),
{
    if packets.len() == 0 {
        assert(engines.last() == engines[0]);
    } else {
        let e0 = engines[0];
        let e1 = engines[1];
        let pk = packets[0];
        let st0v = e0.state->0;
        let i0 = conn_index_of(st0v.conn_info@, p);
        lemma_conn_index_of(st0v.conn_info@, p);
        assert(step_frames(e0, pk, e1));
        assert(step_observes(e0, pk, e1));
        let st1v = e1.state->0;
        assert forall|j: int|
            0 <= j < st0v.conn_info@.len() implies (#[trigger] st1v.conn_info@[j]).0@
            == st0v.conn_info@[j].0@ by {}
        lemma_conn_same_keys(st0v.conn_info@, st1v.conn_info@, p);
        let ghost delta: nat = if stamped_from(pk, p) {
            1nat
        } else {
            0nat
        };
        if stamped_from(pk, p) {
            assert(conn_index_of(st0v.conn_info@, pk.src@) == i0);
            assert(pk.body.msg_id->0 == base + 1);
            assert(receive_post(
                st0v.conn_info@[i0].1.in_msg_id,
                pk.body.msg_id->0,
                st1v.conn_info@[i0].1.in_msg_id,
                receive_outcome_of(st0v.conn_info@[i0].1.in_msg_id, pk.body.msg_id->0),
            ));
            assert(st1v.conn_info@[i0].1.in_msg_id.spec_last() == base + 1);
            assert(st1v.conn_info@[i0].1.in_msg_id is Synced);
            assert(st1v.conn_info@[i0].1.in_msg_id == (MessageSyncStatus::Synced {
                last_msg_id: (base + 1) as usize,
            }));
        } else {
            if pk.body.msg_id is Some && conn_has(st0v.conn_info@, pk.src@) {
                lemma_conn_index_of(st0v.conn_info@, pk.src@);
                if conn_index_of(st0v.conn_info@, pk.src@) == i0 {
                    assert(pk.src@ == p);
                }
            }
            assert(st1v.conn_info@[i0].1.in_msg_id == st0v.conn_info@[i0].1.in_msg_id);
        }
        let tail_e = engines.drop_first();
        let tail_p = packets.drop_first();
        assert(tail_e[0] == e1);
        assert(conn_index_of(st1v.conn_info@, p) == i0);
        assert forall|t: int|
            0 <= t < tail_p.len() implies step_observes(
            #[trigger] tail_e[t],
            tail_p[t],
            tail_e[t + 1],
        ) && step_frames(tail_e[t], tail_p[t], tail_e[t + 1]) by {
            assert(tail_e[t] == engines[t + 1]);
            assert(tail_e[t + 1] == engines[t + 2]);
            assert(tail_p[t] == packets[t + 1]);
            assert(step_observes(engines[t + 1], packets[t + 1], engines[t + 2]));
            assert(step_frames(engines[t + 1], packets[t + 1], engines[t + 2]));
        }
        assert forall|t: int|
            0 <= t < tail_p.len() && stamped_from(#[trigger] tail_p[t], p) implies tail_p[t].body.msg_id->0
            == (base + delta) + 1 + stamped_before(tail_p, p, t) by {
            assert(tail_p[t] == packets[t + 1]);
            lemma_stamped_before_shift(packets, p, t);
            assert(packets[t + 1].body.msg_id->0 == base + 1 + stamped_before(packets, p, t + 1));
        }
        lemma_stamped_before_shift(packets, p, packets.len() - 1);
        assert(stamped_before(tail_p, p, tail_p.len() as int) + delta == stamped_before(
            packets,
            p,
            packets.len() as int,
        ));
        lemma_run_delivery_synced(tail_e, tail_p, p, (base + delta) as usize);
        assert(tail_e.last() == engines.last());
    }
}

/// The idempotence law: an envelope whose sequence number a peer has
/// already delivered is dropped silently — no handler runs, no state
/// changes, nothing is emitted.  Together with `step_remembers`, a second
/// delivery of any envelope from the same peer meets these premises.
pub proof fn lemma_idempotent_redelivery(
    pre: PacketHandler,
    packet: Packet,
    post: PacketHandler,
    r: Result<Vec<Packet>, EngineError>,
)
    requires
        pre.state is Some,
        packet.body.msg_id is Some,
        conn_has(pre.state->0.conn_info@, packet.src@),
        pre.state->0.conn_info@[conn_index_of(pre.state->0.conn_info@, packet.src@)].1.in_msg_id.has_received(
            packet.body.msg_id->0,
        ),
        step_post(pre, packet, post, r),
    ensures
        post == pre,
        r matches Ok(v),
        r->Ok_0@.len() == 0,
{
}

/// The reply round-trip law: a handler-produced plain response always
/// materializes as an envelope back to the triggering envelope's sender,
/// from its receiver, echoing its sequence number, and touches no state.
pub proof fn lemma_response_round_trip(
    st0: NodeInfo,
    trigger: Packet,
    payload: Payload,
    st1: NodeInfo,
    pkt: Packet,
)
    requires
        create_post(st0, trigger, MessageResponse::Response { payload }, st1, pkt),
    ensures
        pkt.src == trigger.dest,
        pkt.dest == trigger.src,
        pkt.body.in_reply_to == trigger.body.msg_id,
        pkt.body.msg_id is None,
        pkt.body.payload == payload,
        st1 == st0,
{
}

/// Every peer's inbound status is well-formed.
pub open spec fn engine_wf(h: PacketHandler) -> bool {
    h.state matches Some(st) ==> forall|i: int|
        0 <= i < st.conn_info@.len() ==> (#[trigger] st.conn_info@[i]).1.in_msg_id.wf()
}

/// Buffering one more of a group's messages extends the enrollment of the
/// group's prefix.
proof fn lemma_group_enroll_extend(
    st_pre: NodeInfo,
    key: String,
    pfx: Seq<Message>,
    cur: NodeInfo,
    m: Message,
    next: NodeInfo,
)
    requires
        group_enroll_post(st_pre, key, pfx, cur),
        enroll_msg_post(cur, key@, m, next),
    ensures
        group_enroll_post(st_pre, key, pfx.push(m), next),
{
    lemma_stamped_push(pfx, m);
    if conn_has(st_pre.conn_info@, key@) {
        lemma_conn_index_of(st_pre.conn_info@, key@);
        lemma_conn_same_keys(st_pre.conn_info@, cur.conn_info@, key@);
        if m.msg_id is Some {
            lemma_conn_index_of(cur.conn_info@, key@);
        }
    } else {
        lemma_conn_same_keys(st_pre.conn_info@, cur.conn_info@, key@);
    }
}

/// Along a group-enrollment trace, identity, topology and inbound
/// statuses are unchanged.
proof fn lemma_groups_chain(tr: Seq<NodeInfo>, gs: Seq<(String, Vec<Packet>)>, i: int, j: int)
    requires
        groups_enroll_trace(tr, gs),
        0 <= i <= j < tr.len(),
    ensures
        same_identity(tr[i], tr[j]),
        tr[j].topology == tr[i].topology,
        tr[j].broadcast_topology == tr[i].broadcast_topology,
        statuses_preserved(tr[i], tr[j]),
    decreases j - i,
{
    if i < j {
        lemma_groups_chain(tr, gs, i, j - 1);
        assert(group_enroll_post(tr[j - 1], gs[j - 1].0, bodies_of(gs[j - 1].1@), tr[j]));
        if conn_has(tr[j - 1].conn_info@, gs[j - 1].0@) {
            lemma_conn_index_of(tr[j - 1].conn_info@, gs[j - 1].0@);
        }
        assert(statuses_preserved(tr[j - 1], tr[j]));
        assert forall|m: int|
            0 <= m < tr[i].conn_info@.len() implies ((#[trigger] tr[j].conn_info@[m]).0
            == tr[i].conn_info@[m].0 && tr[j].conn_info@[m].1.in_msg_id
            == tr[i].conn_info@[m].1.in_msg_id) by {
            assert(tr[j - 1].conn_info@[m].0 == tr[i].conn_info@[m].0);
            assert(tr[j - 1].conn_info@[m].1.in_msg_id == tr[i].conn_info@[m].1.in_msg_id);
        }
    }
}

/// The reply the engine owes a second `init` envelope: the Maelstrom
/// error for a repeated handshake, code 14.
pub open spec fn second_init_reply(st0: NodeInfo, packet: Packet, p: Packet) -> bool {
    &&& p.src == st0.node_id
    &&& p.dest == packet.src
    &&& p.body.msg_id is None
    &&& p.body.in_reply_to == packet.body.msg_id
    &&& (p.body.payload matches Payload::Error { code, text } && code == 14 && text@
        == "Got second Init Message"@)
}

/// What storing a `topology` envelope does: the raw adjacency map is kept,
/// and the broadcast forwarding map is rebuilt wholesale from it, one entry
/// per server peer, exactly as the reducer prescribes.
pub open spec fn topology_applied(st0: NodeInfo, topology: Topology, st1: NodeInfo) -> bool {
    &&& same_identity(st0, st1)
    &&& st1.conn_info == st0.conn_info
    &&& st1.topology == topology
    &&& st1.broadcast_topology@.len() == st0.server_nodes@.len()
    &&& forall|i: int|
        0 <= i < st1.broadcast_topology@.len() ==> (#[trigger] st1.broadcast_topology@[i]).0
            == st0.server_nodes@[i]
    &&& forall|i: int|
        0 <= i < st1.broadcast_topology@.len() ==> distinct_views(
            (#[trigger] st1.broadcast_topology@[i]).1@,
        )
    &&& forall|i: int|
        0 <= i < st1.broadcast_topology@.len() ==> sset((#[trigger] st1.broadcast_topology@[i]).1@)
            == bcast_entry(
            topology@,
            st0.node_id@,
            st0.server_nodes@.len() as nat,
            st0.server_nodes@[i]@,
        )
}

/// What answering a `sync_request` does: the whole unacknowledged buffer
/// for the requesting peer leaves the buffer and comes back as envelopes to
/// that peer, in sending order, each body kept verbatim with its original
/// sequence number.  A requester without connection state gets nothing.
pub open spec fn sync_replay(
    st0: NodeInfo,
    packet: Packet,
    st1: NodeInfo,
    rc: Collection<Packet>,
) -> bool {
    if conn_has(st0.conn_info@, packet.src@) {
        let i = conn_index_of(st0.conn_info@, packet.src@);
        let buf = st0.conn_info@[i].1.un_ack_messages@;
        &&& st1.conn_info@.len() == st0.conn_info@.len()
        &&& forall|j: int|
            0 <= j < st0.conn_info@.len() && j != i ==> st1.conn_info@[j] == st0.conn_info@[j]
        &&& st1.conn_info@[i].0 == st0.conn_info@[i].0
        &&& st1.conn_info@[i].1.out_msg_id == st0.conn_info@[i].1.out_msg_id
        &&& st1.conn_info@[i].1.in_msg_id == st0.conn_info@[i].1.in_msg_id
        &&& st1.conn_info@[i].1.un_ack_messages@.len() == 0
        &&& canonical_collection(rc)
        &&& rc@.len() == buf.len()
        &&& forall|k: int|
            0 <= k < buf.len() ==> (#[trigger] rc@[k]).src == st0.node_id && rc@[k].dest
                == packet.src && rc@[k].body == buf[k]
    } else {
        st1 == st0 && (rc matches Collection::Empty)
    }
}

/// Whether acknowledging `k` from `src` will remove anything.
pub open spec fn ack_outcome(st: NodeInfo, src: Seq<char>, k: usize) -> bool {
    conn_has(st.conn_info@, src) && has_unack(
        st.conn_info@[conn_index_of(st.conn_info@, src)].1.un_ack_messages@,
        k,
    )
}

/// A bulk-acknowledgement trace: the node states passed through while the
/// listed sequence numbers are acknowledged one by one.
pub open spec fn multi_ack_trace(tr: Seq<NodeInfo>, src: Seq<char>, ids: Seq<usize>) -> bool {
    &&& tr.len() == ids.len() + 1
    &&& forall|i: int|
        0 <= i < ids.len() ==> ack_post(
            tr[i],
            src,
            #[trigger] ids[i],
            tr[i + 1],
            ack_outcome(tr[i], src, ids[i]),
        )
}

/// What a `multi_ack` envelope does: its listed sequence numbers are
/// acknowledged in order against the sender's buffer.
pub open spec fn multi_ack_post(
    st0: NodeInfo,
    src: Seq<char>,
    ids: Seq<usize>,
    st1: NodeInfo,
) -> bool {
    exists|tr: Seq<NodeInfo>|
        #![trigger multi_ack_trace(tr, src, ids)]
        multi_ack_trace(tr, src, ids) && tr[0] == st0 && tr.last() == st1
}

/// Along a bulk-acknowledgement trace only the sender's buffer changes.
proof fn lemma_multi_ack_identity(tr: Seq<NodeInfo>, src: Seq<char>, ids: Seq<usize>, i: int, j: int)
    requires
        multi_ack_trace(tr, src, ids),
        0 <= i <= j < tr.len(),
    ensures
        same_identity(tr[i], tr[j]),
        tr[j].topology == tr[i].topology,
        tr[j].broadcast_topology == tr[i].broadcast_topology,
        statuses_preserved(tr[i], tr[j]),
    decreases j - i,
{
    if i < j {
        lemma_multi_ack_identity(tr, src, ids, i, j - 1);
        assert(ack_post(tr[j - 1], src, ids[j - 1], tr[j], ack_outcome(tr[j - 1], src, ids[j - 1])));
        if conn_has(tr[j - 1].conn_info@, src) {
            lemma_conn_index_of(tr[j - 1].conn_info@, src);
        }
        assert(statuses_preserved(tr[j - 1], tr[j]));
        assert forall|m: int|
            0 <= m < tr[i].conn_info@.len() implies ((#[trigger] tr[j].conn_info@[m]).0
            == tr[i].conn_info@[m].0 && tr[j].conn_info@[m].1.in_msg_id
            == tr[i].conn_info@[m].1.in_msg_id) by {
            assert(tr[j - 1].conn_info@[m].0 == tr[i].conn_info@[m].0);
            assert(tr[j - 1].conn_info@[m].1.in_msg_id == tr[i].conn_info@[m].1.in_msg_id);
        }
    }
}

/// What handling one non-batch envelope decides, for every payload.
///
/// A second `init` is answered with error 14; `ack` does nothing beyond
/// the reply reconciliation the inbound step already performed;
/// `topology` stores the map and rebuilds the forwarding map; `forward`
/// emits the nested envelope verbatim; `sync_request` replays the
/// requester's unacknowledged buffer; `multi_ack` acknowledges every
/// listed number; and every other payload is offered to the registered
/// handlers, whose descriptors are materialized in order.  A batch never
/// reaches single dispatch: the recursive routing flattens it first.
pub open spec fn single_post(
    st0: NodeInfo,
    hs0: Seq<Handler>,
    packet: Packet,
    st1: NodeInfo,
    hs1: Seq<Handler>,
    rc: Collection<Packet>,
) -> bool {
    &&& same_identity(st0, st1)
    &&& match packet.body.payload {
        Payload::Init { .. } => {
            &&& st1 == st0
            &&& hs1 == hs0
            &&& rc matches Collection::One(_)
            &&& rc@.len() == 1
            &&& second_init_reply(st0, packet, rc@[0])
        },
        Payload::Ack => st1 == st0 && hs1 == hs0 && (rc matches Collection::Empty),
        Payload::Topology { topology } => {
            &&& hs1 == hs0
            &&& topology_applied(st0, topology, st1)
            &&& rc matches Collection::One(_)
            &&& rc@.len() == 1
            &&& rc@[0].src == st0.node_id
            &&& rc@[0].dest == packet.src
            &&& rc@[0].body.msg_id is None
            &&& rc@[0].body.in_reply_to == packet.body.msg_id
            &&& rc@[0].body.payload is TopologyOk
        },
        Payload::Forward { packet: fwd } => {
            &&& st1 == st0
            &&& hs1 == hs0
            &&& rc matches Collection::One(_)
            &&& rc@.len() == 1
            &&& rc@[0] == *fwd
        },
        Payload::SyncRequest => {
            &&& hs1 == hs0
            &&& st1.topology == st0.topology
            &&& st1.broadcast_topology == st0.broadcast_topology
            &&& sync_replay(st0, packet, st1, rc)
        },
        // A batch never reaches single dispatch: the engine flattens it
        // recursively before anything gets here.
        Payload::Batch { .. } => false,
        Payload::MultiAck { messages } => {
            &&& hs1 == hs0
            &&& st1.topology == st0.topology
            &&& st1.broadcast_topology == st0.broadcast_topology
            &&& multi_ack_post(st0, packet.src@, messages@, st1)
            &&& rc matches Collection::Empty
        },
        _ => {
            &&& st1.topology == st0.topology
            &&& st1.broadcast_topology == st0.broadcast_topology
            &&& exists|descs: Seq<MessageResponse>|
                #![trigger fanout_post(hs0, packet, st0, hs1, descs)]
                fanout_post(hs0, packet, st0, hs1, descs) && materialize_post(
                    st0,
                    packet,
                    descs,
                    st1,
                    rc@,
                ) && canonical_collection(rc)
        },
    }
}

/// What buffering one outbound message for `dest` does: with a sequence
/// number and a known peer, a faithful copy joins the end of that peer's
/// buffer; otherwise nothing changes.
pub open spec fn enroll_msg_post(st0: NodeInfo, dest: Seq<char>, m: Message, st1: NodeInfo) -> bool {
    if m.msg_id is Some && conn_has(st0.conn_info@, dest) {
        let i = conn_index_of(st0.conn_info@, dest);
        &&& same_but_conn(st0, st1)
        &&& st1.conn_info@.len() == st0.conn_info@.len()
        &&& forall|j: int|
            0 <= j < st0.conn_info@.len() && j != i ==> st1.conn_info@[j] == st0.conn_info@[j]
        &&& st1.conn_info@[i].0 == st0.conn_info@[i].0
        &&& st1.conn_info@[i].1.out_msg_id == st0.conn_info@[i].1.out_msg_id
        &&& st1.conn_info@[i].1.in_msg_id == st0.conn_info@[i].1.in_msg_id
        &&& st1.conn_info@[i].1.un_ack_messages@.len() == st0.conn_info@[i].1.un_ack_messages@.len()
            + 1
        &&& forall|j: int|
            0 <= j < st0.conn_info@[i].1.un_ack_messages@.len()
                ==> st1.conn_info@[i].1.un_ack_messages@[j]
                == st0.conn_info@[i].1.un_ack_messages@[j]
        &&& message_eq(m, st1.conn_info@[i].1.un_ack_messages@.last())
    } else {
        st1 == st0
    }
}

/// The variant of a collection reflects how many values it holds.
pub open spec fn canonical_collection<T>(c: Collection<T>) -> bool {
    &&& (c matches Collection::Empty) <==> c@.len() == 0
    &&& (c matches Collection::One(_)) <==> c@.len() == 1
    &&& (c matches Collection::Multiple(_)) <==> c@.len() >= 2
}

/// A sequence with no matching element filters to nothing.
proof fn lemma_filter_empty(ps: Seq<Packet>, f: spec_fn(Packet) -> bool)
    requires
        forall|j: int| 0 <= j < ps.len() ==> !f(#[trigger] ps[j]),
    ensures
        ps.filter(f) =~= Seq::<Packet>::empty(),
    decreases ps.len(),
{
    reveal(Seq::filter);
    if ps.len() > 0 {
        lemma_filter_empty(ps.drop_last(), f);
        assert(!f(ps.last()));
    }
}

impl PacketHandler {
    /// Offer one envelope to every registered handler, in registry order,
    /// and gather their response descriptors.
    fn fan_out(&mut self, packet: &Packet) -> (descs: Vec<MessageResponse>)
        requires
            old(self).state is Some,
            generate_budget(old(self).handlers@, old(self).state->0, 1),
        ensures
            final(self).state == old(self).state,
            fanout_post(
                old(self).handlers@,
                *packet,
                old(self).state->0,
                final(self).handlers@,
                descs@,
            ),
    {
        let ghost hs0 = self.handlers@;
        let ghost st = self.state->0;
        let mut descs: Vec<MessageResponse> = Vec::new();
        let mut idx: usize = 0;
        proof {
            assert(hs0.subrange(0, 0) =~= Seq::<Handler>::empty());
            assert(descs@ =~= Seq::<MessageResponse>::empty());
        }
        while idx < self.handlers.len()
            invariant
                self.state is Some,
                self.state->0 == st,
                generate_budget(hs0, st, 1),
                self.handlers@.len() == hs0.len(),
                0 <= idx <= hs0.len(),
                forall|j: int| idx <= j < hs0.len() ==> self.handlers@[j] == hs0[j],
                fanout_post(
                    hs0.subrange(0, idx as int),
                    *packet,
                    st,
                    self.handlers@.subrange(0, idx as int),
                    descs@,
                ),
            decreases hs0.len() - idx,
        {
            let ghost hs_pre = self.handlers@;
            let ghost pre_descs = descs@;
            proof {
                lemma_budget_ready(hs0, st, 1, *packet);
            }
            let st_ref: &NodeInfo = match &self.state {
                Some(s) => s,
                None => vstd::pervasive::unreached(),
            };
            let c = self.handlers[idx].handle_message(packet, st_ref);
            let mut cv = c.into_vec();
            let ghost d = cv@;
            descs.append(&mut cv);
            proof {
                assert(hs0.subrange(0, idx + 1) =~= hs0.subrange(0, idx as int).push(
                    hs0[idx as int],
                ));
                assert(self.handlers@.subrange(0, idx as int) =~= hs_pre.subrange(0, idx as int));
                assert(self.handlers@.subrange(0, idx + 1) =~= hs_pre.subrange(0, idx as int).push(
                    self.handlers@[idx as int],
                ));
                lemma_fanout_push(
                    hs0.subrange(0, idx as int),
                    *packet,
                    st,
                    hs_pre.subrange(0, idx as int),
                    pre_descs,
                    hs0[idx as int],
                    self.handlers@[idx as int],
                    d,
                );
            }
            idx = idx + 1;
        }
        proof {
            assert(hs0.subrange(0, hs0.len() as int) =~= hs0);
            assert(self.handlers@.subrange(0, hs0.len() as int) =~= self.handlers@);
        }
        descs
    }

    /// Turn the gathered descriptors into envelopes, in order, stamping
    /// sequence numbers as each descriptor demands.
    fn materialize_all(&mut self, trigger: &Packet, descs: Vec<MessageResponse>) -> (pkts: Vec<
        Packet,
    >)
        requires
            old(self).state is Some,
        ensures
            final(self).state is Some,
            final(self).handlers == old(self).handlers,
            materialize_post(
                old(self).state->0,
                *trigger,
                descs@,
                final(self).state->0,
                pkts@,
            ),
            same_identity(old(self).state->0, final(self).state->0),
            final(self).state->0.topology == old(self).state->0.topology,
            final(self).state->0.broadcast_topology == old(self).state->0.broadcast_topology,
            statuses_preserved(old(self).state->0, final(self).state->0),
    {
        let ghost descs0 = descs@;
        let ghost st0 = self.state->0;
        let mut ds = descs;
        let mut pkts: Vec<Packet> = Vec::new();
        let ghost mut tr: Seq<NodeInfo> = seq![st0];
        while ds.len() > 0
            invariant
                self.state is Some,
                self.handlers == old(self).handlers,
                st0 == old(self).state->0,
                pkts@.len() + ds@.len() == descs0.len(),
                forall|j: int| 0 <= j < ds@.len() ==> ds@[j] == descs0[pkts@.len() + j],
                tr.len() == pkts@.len() + 1,
                tr[0] == st0,
                tr.last() == self.state->0,
                materialize_trace(tr, *trigger, descs0.subrange(0, pkts@.len() as int), pkts@),
            decreases ds@.len(),
        {
            let ghost k = pkts@.len() as int;
            let d = ds.remove(0);
            proof {
                assert(d == descs0[k]);
            }
            let p = self.create_packet(trigger, d);
            pkts.push(p);
            proof {
                tr = tr.push(self.state->0);
                assert(descs0.subrange(0, k + 1) =~= descs0.subrange(0, k).push(descs0[k]));
                assert forall|i: int|
                    0 <= i < k + 1 implies create_post(
                    tr[i],
                    *trigger,
                    #[trigger] descs0.subrange(0, k + 1)[i],
                    tr[i + 1],
                    pkts@[i],
                ) by {
                    if i < k {
                        assert(create_post(
                            tr[i],
                            *trigger,
                            descs0.subrange(0, k)[i],
                            tr[i + 1],
                            pkts@.subrange(0, k)[i],
                        ));
                        assert(pkts@.subrange(0, k)[i] == pkts@[i]);
                    }
                }
                assert(materialize_trace(tr, *trigger, descs0.subrange(0, k + 1), pkts@));
            }
        }
        proof {
            assert(descs0.subrange(0, descs0.len() as int) =~= descs0);
            assert(materialize_trace(tr, *trigger, descs0, pkts@));
            lemma_trace_identity(tr, *trigger, descs0, pkts@, 0, tr.len() - 1);
        }
        pkts
    }

    /// An error envelope from this node, as the protocol's error payload.
    fn create_error_packet(&self, in_reply_to: Option<usize>, dest: String, code: usize, text: String) -> (r: Packet)
        requires
            self.state is Some,
        ensures
            r.src == self.state->0.node_id,
            r.dest == dest,
            r.body.msg_id is None,
            r.body.in_reply_to == in_reply_to,
            r.body.payload == (Payload::Error { code, text }),
    {
        Packet {
            src: self.get_state().node_id.clone(),
            dest,
            body: Message { msg_id: None, in_reply_to, payload: Payload::Error { code, text } },
        }
    }

    /// Dispatch one non-batch envelope: control payloads short-circuit in
    /// the engine, anything else fans out to the handlers.
    fn handle_single(&mut self, packet: Packet) -> (rc: Collection<Packet>)
        requires
            old(self).state is Some,
            generate_budget(old(self).handlers@, old(self).state->0, 1),
            !(packet.body.payload matches Payload::Batch { .. }),
        ensures
            final(self).state is Some,
            single_post(
                old(self).state->0,
                old(self).handlers@,
                packet,
                final(self).state->0,
                final(self).handlers@,
                rc,
            ),
            forall|n: nat|
                n >= 1 && generate_budget(old(self).handlers@, old(self).state->0, n)
                    ==> generate_budget(
                    final(self).handlers@,
                    final(self).state->0,
                    (n - 1) as nat,
                ),
            statuses_preserved(old(self).state->0, final(self).state->0),
    {
        let ghost st0 = self.state->0;
        let ghost hs0 = self.handlers@;
        let ghost packet0 = packet;
        let rc = match packet {
            Packet { src, body: Message { msg_id, payload: Payload::Init { .. }, .. }, .. } => {
                let r = self.create_error_packet(
                    msg_id,
                    src,
                    14,
                    "Got second Init Message".to_owned(),
                );
                Collection::One(r)
            },
            Packet { body: Message { payload: Payload::Ack, .. }, .. } => Collection::Empty,
            Packet {
                src,
                body: Message { msg_id, payload: Payload::Topology { topology }, .. },
                ..
            } => {
                match &mut self.state {
                    Some(st) => {
                        let bt = build_broadcast_topology(
                            &st.node_id,
                            &st.server_nodes,
                            &topology,
                        );
                        st.broadcast_topology = bt;
                        st.topology = topology;
                        let reply = Packet {
                            src: st.node_id.clone(),
                            dest: src,
                            body: Message {
                                msg_id: None,
                                in_reply_to: msg_id,
                                payload: Payload::TopologyOk,
                            },
                        };
                        Collection::One(reply)
                    },
                    None => vstd::pervasive::unreached(),
                }
            },
            Packet { body: Message { payload: Payload::Forward { packet: fwd }, .. }, .. } => {
                Collection::One(*fwd)
            },
            Packet { src, body: Message { payload: Payload::SyncRequest, .. }, .. } => {
                match &mut self.state {
                    Some(st) => {
                        let own = st.node_id.clone();
                        match conn_find(&st.conn_info, &src) {
                            Some(i) => {
                                let ghost pre = st.conn_info@;
                                let entry = &mut st.conn_info[i];
                                let mut buf: Vec<Message> = Vec::new();
                                core::mem::swap(&mut entry.1.un_ack_messages, &mut buf);
                                proof {
                                    assert(forall|j: int|
                                        0 <= j < pre.len() && j != i ==> st.conn_info@[j] == pre[j]);
                                }
                                let ghost buf0 = buf@;
                                let mut out: Vec<Packet> = Vec::new();
                                while buf.len() > 0
                                    invariant
                                        out@.len() + buf@.len() == buf0.len(),
                                        forall|j: int|
                                            0 <= j < buf@.len() ==> buf@[j] == buf0[out@.len() + j],
                                        forall|k: int|
                                            0 <= k < out@.len() ==> (#[trigger] out@[k]).src == own
                                                && out@[k].dest == src && out@[k].body == buf0[k]
                                                && out@[k].body.msg_id == buf0[k].msg_id,
                                    decreases buf@.len(),
                                {
                                    let m = buf.remove(0);
                                    out.push(
                                        Packet { src: own.clone(), dest: src.clone(), body: m },
                                    );
                                }
                                Collection::from_vec(out)
                            },
                            None => Collection::Empty,
                        }
                    },
                    None => vstd::pervasive::unreached(),
                }
            },
            // Batches go through the recursive dispatch, never here.
            Packet { body: Message { payload: Payload::Batch { .. }, .. }, .. } => {
                vstd::pervasive::unreached()
            },
            Packet { src, body: Message { payload: Payload::MultiAck { messages }, .. }, .. } => {
                let ghost mut tr: Seq<NodeInfo> = seq![st0];
                let mut k: usize = 0;
                while k < messages.len()
                    invariant
                        self.state is Some,
                        self.handlers@ == hs0,
                        0 <= k <= messages@.len(),
                        tr.len() == k + 1,
                        tr[0] == st0,
                        tr.last() == self.state->0,
                        multi_ack_trace(tr, src@, messages@.subrange(0, k as int)),
                    decreases messages@.len() - k,
                {
                    let ghost st_pre = self.state->0;
                    let r = self.ack_packet(&src, messages[k]);
                    proof {
                        tr = tr.push(self.state->0);
                        assert(r == ack_outcome(st_pre, src@, messages@[k as int]));
                        assert(messages@.subrange(0, k + 1) =~= messages@.subrange(0, k as int).push(
                            messages@[k as int],
                        ));
                        assert forall|i: int|
                            0 <= i < k + 1 implies ack_post(
                            tr[i],
                            src@,
                            #[trigger] messages@.subrange(0, k + 1)[i],
                            tr[i + 1],
                            ack_outcome(tr[i], src@, messages@.subrange(0, k + 1)[i]),
                        ) by {
                            if i < k {
                                assert(ack_post(
                                    tr[i],
                                    src@,
                                    messages@.subrange(0, k as int)[i],
                                    tr[i + 1],
                                    ack_outcome(tr[i], src@, messages@.subrange(0, k as int)[i]),
                                ));
                            }
                        }
                    }
                    k = k + 1;
                }
                proof {
                    assert(messages@.subrange(0, messages@.len() as int) =~= messages@);
                    assert(multi_ack_trace(tr, src@, messages@));
                    lemma_multi_ack_identity(tr, src@, messages@, 0, tr.len() - 1);
                }
                Collection::Empty
            },
            other => {
                let descs = self.fan_out(&other);
                let ghost dv = descs@;
                let pkts = self.materialize_all(&other, descs);
                let rc = Collection::from_vec(pkts);
                proof {
                    assert(fanout_post(hs0, packet0, st0, self.handlers@, dv));
                    assert(materialize_post(st0, packet0, dv, self.state->0, rc@));
                    assert forall|n: nat|
                        n >= 1 && generate_budget(hs0, st0, n) implies generate_budget(
                        self.handlers@,
                        self.state->0,
                        (n - 1) as nat,
                    ) by {
                        lemma_budget_spend(hs0, st0, n, packet0, self.handlers@, dv);
                        lemma_budget_transfer(self.handlers@, st0, self.state->0, (n - 1) as nat);
                    }
                }
                rc
            },
        };
        proof {
            assert forall|n: nat|
                n >= 1 && generate_budget(hs0, st0, n) implies generate_budget(
                self.handlers@,
                self.state->0,
                (n - 1) as nat,
            ) by {
                lemma_budget_transfer(hs0, st0, self.state->0, n);
                lemma_budget_mono(hs0, self.state->0, n, (n - 1) as nat);
            }
        }
        rc
    }

    /// Route one envelope: flatten a batch into per-message handling with
    /// the batch's addresses, handle anything else directly.
    fn handle_packet(&mut self, packet: Packet) -> (rc: Collection<Packet>)
        requires
            old(self).state is Some,
            generate_budget(old(self).handlers@, old(self).state->0, step_weight(packet)),
        ensures
            final(self).state is Some,
            handle_post(
                old(self).state->0,
                old(self).handlers@,
                packet,
                final(self).state->0,
                final(self).handlers@,
                rc,
            ),
            statuses_preserved(old(self).state->0, final(self).state->0),
            forall|n: nat|
                n >= step_weight(packet) && generate_budget(
                    old(self).handlers@,
                    old(self).state->0,
                    n,
                ) ==> generate_budget(
                    final(self).handlers@,
                    final(self).state->0,
                    (n - step_weight(packet)) as nat,
                ),
        decreases payload_height(packet.body.payload),
    {
        let ghost st0 = self.state->0;
        let ghost hs0 = self.handlers@;
        let ghost packet0 = packet;
        match packet {
            Packet { src, dest, body: Message { payload: Payload::Batch { messages }, .. } } => {
                let ghost ms0 = messages@;
                proof {
                    assert(step_weight(packet0) == 1 + messages_weight(ms0));
                    assert(payload_height(packet0.body.payload) == 1 + messages_height(ms0));
                }
                let mut responses: Vec<Packet> = Vec::new();
                let ghost mut st_tr: Seq<NodeInfo> = seq![st0];
                let ghost mut hs_tr: Seq<Seq<Handler>> = seq![hs0];
                let ghost mut rcs: Seq<Collection<Packet>> = Seq::empty();
                let mut ms = messages;
                proof {
                    assert(ms0.subrange(0, 0) =~= Seq::<Message>::empty());
                    assert(concat_views(rcs) =~= Seq::<Packet>::empty());
                    assert(messages_weight(ms0.subrange(0, 0)) == 0);
                }
                while ms.len() > 0
                    invariant
                        self.state is Some,
                        rcs.len() + ms@.len() == ms0.len(),
                        forall|j: int| 0 <= j < ms@.len() ==> ms@[j] == ms0[rcs.len() + j],
                        st_tr.len() == rcs.len() + 1,
                        hs_tr.len() == rcs.len() + 1,
                        st_tr[0] == st0,
                        hs_tr[0] == hs0,
                        st_tr.last() == self.state->0,
                        hs_tr.last() == self.handlers@,
                        batch_trace(st_tr, hs_tr, src, dest, ms0.subrange(0, rcs.len() as int), rcs),
                        responses@ == concat_views(rcs),
                        statuses_preserved(st0, self.state->0),
                        messages_weight(ms0.subrange(0, rcs.len() as int)) + messages_weight(ms@)
                            == messages_weight(ms0),
                        forall|n: nat|
                            n >= messages_weight(ms0.subrange(0, rcs.len() as int))
                                && generate_budget(hs0, st0, n) ==> generate_budget(
                                self.handlers@,
                                self.state->0,
                                (n - messages_weight(ms0.subrange(0, rcs.len() as int))) as nat,
                            ),
                        generate_budget(hs0, st0, (1 + messages_weight(ms0)) as nat),
                        packet0 == packet,
                        payload_height(packet.body.payload) == 1 + messages_height(ms0),
                    decreases ms@.len(),
                {
                    let ghost k = rcs.len() as int;
                    let ghost ms_pre = ms@;
                    let ghost consumed = messages_weight(ms0.subrange(0, k));
                    let m = ms.remove(0);
                    proof {
                        // One step of the member-weight fold.
                        assert(ms_pre[0] == m);
                        assert(ms_pre.drop_first() =~= ms@);
                        assert(messages_weight(ms_pre) == payload_weight(m.payload)
                            + messages_weight(ms@));
                        // The member's handling fits the remaining budget.
                        assert(1 + messages_weight(ms0) >= consumed);
                        assert(generate_budget(
                            self.handlers@,
                            self.state->0,
                            ((1 + messages_weight(ms0)) - consumed) as nat,
                        ));
                        lemma_budget_mono(
                            self.handlers@,
                            self.state->0,
                            ((1 + messages_weight(ms0)) - consumed) as nat,
                            payload_weight(m.payload),
                        );
                        // The member nests strictly less deeply than the batch.
                        lemma_messages_height_ge(ms0, k);
                        assert(payload_height(m.payload) < payload_height(packet.body.payload));
                    }
                    let sub = Packet { src: src.clone(), dest: dest.clone(), body: m };
                    let ghost st_pre = self.state->0;
                    let ghost hs_pre = self.handlers@;
                    let c = self.handle_packet(sub);
                    let ghost cg = c;
                    let ghost pre_rcs = rcs;
                    let mut cv = c.into_vec();
                    responses.append(&mut cv);
                    proof {
                        st_tr = st_tr.push(self.state->0);
                        hs_tr = hs_tr.push(self.handlers@);
                        rcs = rcs.push(cg);
                        lemma_concat_views_push(pre_rcs, cg);
                        assert(ms0.subrange(0, k + 1) =~= ms0.subrange(0, k).push(ms0[k]));
                        lemma_messages_weight_push(ms0.subrange(0, k), ms0[k]);
                        assert forall|i: int|
                            0 <= i < k + 1 implies handle_post(
                            st_tr[i],
                            hs_tr[i],
                            Packet { src, dest, body: #[trigger] ms0.subrange(0, k + 1)[i] },
                            st_tr[i + 1],
                            hs_tr[i + 1],
                            rcs[i],
                        ) by {
                            if i < k {
                                assert(handle_post(
                                    st_tr[i],
                                    hs_tr[i],
                                    Packet { src, dest, body: ms0.subrange(0, k)[i] },
                                    st_tr[i + 1],
                                    hs_tr[i + 1],
                                    pre_rcs[i],
                                ));
                                assert(rcs[i] == pre_rcs[i]);
                            } else {
                                assert(sub == (Packet { src, dest, body: ms0[k] }));
                            }
                        }
                        assert(batch_trace(st_tr, hs_tr, src, dest, ms0.subrange(0, k + 1), rcs));
                        // Chain the budget decay through the member.
                        assert forall|n: nat|
                            n >= messages_weight(ms0.subrange(0, k + 1)) && generate_budget(
                                hs0,
                                st0,
                                n,
                            ) implies generate_budget(
                            self.handlers@,
                            self.state->0,
                            (n - messages_weight(ms0.subrange(0, k + 1))) as nat,
                        ) by {
                            assert(generate_budget(hs_pre, st_pre, (n - consumed) as nat));
                            assert((n - consumed) as nat >= step_weight(sub));
                        }
                    }
                }
                let rcc = Collection::Multiple(responses);
                proof {
                    assert(ms0.subrange(0, ms0.len() as int) =~= ms0);
                    assert(batch_trace(st_tr, hs_tr, src, dest, ms0, rcs));
                    assert(src == packet0.src && dest == packet0.dest);
                    assert(batch_trace(st_tr, hs_tr, packet0.src, packet0.dest, ms0, rcs));
                    assert(rcc@ == concat_views(rcs));
                    assert(st_tr[0] == st0 && st_tr.last() == self.state->0);
                    assert(hs_tr[0] == hs0 && hs_tr.last() == self.handlers@);
                    assert(batch_post(
                        st0,
                        hs0,
                        packet0.src,
                        packet0.dest,
                        ms0,
                        self.state->0,
                        self.handlers@,
                        rcc@,
                    )) by {
                        lemma_batch_post_intro(
                            st_tr,
                            hs_tr,
                            rcs,
                            st0,
                            hs0,
                            packet0.src,
                            packet0.dest,
                            ms0,
                            self.state->0,
                            self.handlers@,
                            rcc@,
                        );
                    }
                    assert forall|n: nat|
                        n >= step_weight(packet0) && generate_budget(hs0, st0, n) implies generate_budget(
                        self.handlers@,
                        self.state->0,
                        (n - step_weight(packet0)) as nat,
                    ) by {
                        assert(generate_budget(
                            self.handlers@,
                            self.state->0,
                            (n - messages_weight(ms0)) as nat,
                        ));
                        lemma_budget_mono(
                            self.handlers@,
                            self.state->0,
                            (n - messages_weight(ms0)) as nat,
                            (n - step_weight(packet0)) as nat,
                        );
                    }
                }
                rcc
            },
            other => {
                proof {
                    assert(step_weight(packet0) == 1);
                }
                self.handle_single(other)
            },
        }
    }

    /// Buffer one outbound message for peer `dest` until it is
    /// acknowledged, if it carries a sequence number and the peer is known.
    fn enroll_message(&mut self, dest: &String, m: &Message)
        requires
            old(self).state is Some,
        ensures
            final(self).state is Some,
            final(self).handlers == old(self).handlers,
            enroll_msg_post(old(self).state->0, dest@, *m, final(self).state->0),
    {
        if m.msg_id.is_some() {
            match &mut self.state {
                Some(st) => {
                    match conn_find(&st.conn_info, dest) {
                        Some(i) => {
                            let ghost pre = st.conn_info@;
                            let body = m.duplicate();
                            let entry = &mut st.conn_info[i];
                            entry.1.un_ack_messages.push(body);
                            proof {
                                assert(st.conn_info@ == pre.update(
                                    i as int,
                                    st.conn_info@[i as int],
                                ));
                                assert(forall|j: int|
                                    0 <= j < pre.len() && j != i ==> st.conn_info@[j] == pre[j]);
                            }
                        },
                        None => {},
                    }
                },
                None => vstd::pervasive::unreached(),
            }
        }
    }
}

/// The index of the group keyed `d`, if one exists.
fn find_group(gs: &Vec<(String, Vec<Packet>)>, d: &String) -> (r: Option<usize>)
    ensures
        match r {
            Some(i) => 0 <= i < gs@.len() && gs@[i as int].0@ == d@,
            None => forall|k: int| 0 <= k < gs@.len() ==> gs@[k].0@ != d@,
        },
{
    let mut i: usize = 0;
    while i < gs.len()
        invariant
            0 <= i <= gs@.len(),
            forall|k: int| 0 <= k < i ==> gs@[k].0@ != d@,
        decreases gs@.len() - i,
    {
        if gs[i].0 == *d {
            return Some(i);
        }
        i = i + 1;
    }
    None
}

/// Group the envelopes by destination: one entry per destination that
/// occurs, holding that destination's envelopes in emission order.
fn group_by_dest(packets: Vec<Packet>) -> (gs: Vec<(String, Vec<Packet>)>)
    ensures
        grouping_ok(packets@, gs@),
{
    let ghost ps0 = packets@;
    let mut ps = packets;
    let mut gs: Vec<(String, Vec<Packet>)> = Vec::new();
    proof {
        assert(ps0.subrange(0, 0) =~= Seq::<Packet>::empty());
        reveal(Seq::filter);
    }
    while ps.len() > 0
        invariant
            exists|done: int|
                #![trigger ps0.subrange(0, done)]
                {
                    &&& 0 <= done <= ps0.len()
                    &&& done + ps@.len() == ps0.len()
                    &&& (forall|j: int| 0 <= j < ps@.len() ==> ps@[j] == ps0[done + j])
                    &&& grouping_ok(ps0.subrange(0, done), gs@)
                },
        decreases ps@.len(),
    {
        let ghost done = choose|done: int|
            #![trigger ps0.subrange(0, done)]
            {
                &&& 0 <= done <= ps0.len()
                &&& done + ps@.len() == ps0.len()
                &&& (forall|j: int| 0 <= j < ps@.len() ==> ps@[j] == ps0[done + j])
                &&& grouping_ok(ps0.subrange(0, done), gs@)
            };
        let ghost gs_pre = gs@;
        let p = ps.remove(0);
        proof {
            assert(p == ps0[done]);
            assert(ps0.subrange(0, done + 1) =~= ps0.subrange(0, done).push(ps0[done]));
        }
        let key = p.dest.clone();
        match find_group(&gs, &key) {
            Some(i) => {
                let entry = &mut gs[i];
                entry.1.push(p);
                proof {
                    lemma_grouping_extend(ps0.subrange(0, done), gs_pre, ps0[done], gs@, i as int);
                }
            },
            None => {
                gs.push((key, vec![p]));
                proof {
                    assert(gs@.last().1@ =~= seq![ps0[done]]);
                    lemma_grouping_extend_new(ps0.subrange(0, done), gs_pre, ps0[done], gs@);
                }
            },
        }
        proof {
            assert(grouping_ok(ps0.subrange(0, done + 1), gs@));
            assert(ps0.subrange(0, done + 1).len() + ps@.len() == ps0.len());
        }
    }
    proof {
        let done = choose|done: int|
            #![trigger ps0.subrange(0, done)]
            {
                &&& 0 <= done <= ps0.len()
                &&& done + ps@.len() == ps0.len()
                &&& (forall|j: int| 0 <= j < ps@.len() ==> ps@[j] == ps0[done + j])
                &&& grouping_ok(ps0.subrange(0, done), gs@)
            };
        assert(ps0.subrange(0, done) =~= ps0);
    }
    gs
}

/// Extending a grouping with one more envelope for an existing group
/// appends that envelope to the group.
proof fn lemma_grouping_extend(
    ps: Seq<Packet>,
    gs0: Seq<(String, Vec<Packet>)>,
    p: Packet,
    gs1: Seq<(String, Vec<Packet>)>,
    i: int,
)
    requires
        grouping_ok(ps, gs0),
        0 <= i < gs0.len(),
        gs0[i].0@ == p.dest@,
        gs1.len() == gs0.len(),
        forall|k: int| 0 <= k < gs0.len() && k != i ==> gs1[k] == gs0[k],
        gs1[i].0 == gs0[i].0,
        gs1[i].1@ == gs0[i].1@.push(p),
    ensures
        grouping_ok(ps.push(p), gs1),
{
    reveal(Seq::filter);
    assert(ps.push(p).drop_last() =~= ps);
    assert forall|k: int| 0 <= k < gs1.len() implies (#[trigger] gs1[k]).1@ == group_pkts(
        ps.push(p),
        gs1[k].0@,
    ) by {
        assert(gs0[k].1@ == group_pkts(ps, gs0[k].0@));
        let f = |q: Packet| q.dest@ == gs1[k].0@;
        assert(ps.push(p).filter(f) == if f(p) {
            ps.filter(f).push(p)
        } else {
            ps.filter(f)
        });
        if k != i {
            assert(gs1[k].0@ != p.dest@);
        }
    }
    assert forall|j: int|
        0 <= j < ps.push(p).len() implies exists|k: int|
        0 <= k < gs1.len() && gs1[k].0@ == (#[trigger] ps.push(p)[j]).dest@ by {
        if j < ps.len() {
            let k = choose|k: int| 0 <= k < gs0.len() && gs0[k].0@ == ps[j].dest@;
            assert(gs1[k].0@ == ps.push(p)[j].dest@);
        } else {
            assert(gs1[i].0@ == ps.push(p)[j].dest@);
        }
    }
    assert forall|k: int| 0 <= k < gs1.len() implies has_dest(ps.push(p), (#[trigger] gs1[k]).0@) by {
        assert(has_dest(ps, gs0[k].0@));
        let j = choose|j: int| 0 <= j < ps.len() && ps[j].dest@ == gs0[k].0@;
        assert(ps.push(p)[j].dest@ == gs1[k].0@);
    }
}

/// Extending a grouping with an envelope for a fresh destination adds one
/// new group holding just that envelope.
proof fn lemma_grouping_extend_new(
    ps: Seq<Packet>,
    gs0: Seq<(String, Vec<Packet>)>,
    p: Packet,
    gs1: Seq<(String, Vec<Packet>)>,
)
    requires
        grouping_ok(ps, gs0),
        forall|k: int| 0 <= k < gs0.len() ==> gs0[k].0@ != p.dest@,
        gs1.len() == gs0.len() + 1,
        forall|k: int| 0 <= k < gs0.len() ==> gs1[k] == gs0[k],
        gs1.last().0@ == p.dest@,
        gs1.last().1@ == seq![p],
    ensures
        grouping_ok(ps.push(p), gs1),
{
    reveal(Seq::filter);
    assert(ps.push(p).drop_last() =~= ps);
    let last = gs0.len() as int;
    assert forall|k: int| 0 <= k < gs1.len() implies (#[trigger] gs1[k]).1@ == group_pkts(
        ps.push(p),
        gs1[k].0@,
    ) by {
        let f = |q: Packet| q.dest@ == gs1[k].0@;
        assert(ps.push(p).filter(f) == if f(p) {
            ps.filter(f).push(p)
        } else {
            ps.filter(f)
        });
        if k < last {
            assert(gs0[k].1@ == group_pkts(ps, gs0[k].0@));
            assert(gs1[k].0@ != p.dest@);
        } else {
            // A fresh destination has an empty group so far.
            assert(ps.filter(f) =~= Seq::<Packet>::empty()) by {
                assert forall|j: int| 0 <= j < ps.len() implies !f(ps[j]) by {
                    let kk = choose|kk: int| 0 <= kk < gs0.len() && gs0[kk].0@ == ps[j].dest@;
                    assert(gs0[kk].0@ != p.dest@);
                }
                lemma_filter_empty(ps, f);
            }
            assert(ps.push(p).filter(f) =~= seq![p]);
        }
    }
    assert forall|j: int|
        0 <= j < ps.push(p).len() implies exists|k: int|
        0 <= k < gs1.len() && gs1[k].0@ == (#[trigger] ps.push(p)[j]).dest@ by {
        if j < ps.len() {
            let k = choose|k: int| 0 <= k < gs0.len() && gs0[k].0@ == ps[j].dest@;
            assert(gs1[k].0@ == ps.push(p)[j].dest@);
        } else {
            assert(gs1[last].0@ == ps.push(p)[j].dest@);
        }
    }
    assert forall|k: int| 0 <= k < gs1.len() implies has_dest(ps.push(p), (#[trigger] gs1[k]).0@) by {
        if k < last {
            assert(has_dest(ps, gs0[k].0@));
            let j = choose|j: int| 0 <= j < ps.len() && ps[j].dest@ == gs0[k].0@;
            assert(ps.push(p)[j].dest@ == gs1[k].0@);
        } else {
            assert(ps.push(p)[ps.len() as int].dest@ == gs1[k].0@);
        }
    }
}

impl PacketHandler {
    /// Emit the merged response collection: nothing, one envelope
    /// verbatim, or the per-destination groups, buffering every stamped
    /// body for its destination peer.
    fn emit(&mut self, merged: Collection<Packet>) -> (out: Vec<Packet>)
        requires
            old(self).state is Some,
        ensures
            final(self).state is Some,
            final(self).handlers == old(self).handlers,
            emission_post(old(self).state->0, merged, final(self).state->0, out@),
            statuses_preserved(old(self).state->0, final(self).state->0),
    {
        let ghost st_c = self.state->0;
        match merged {
            Collection::Empty => Vec::new(),
            Collection::One(p) => {
                self.add_packet_to_ack(&p);
                proof {
                    if p.body.msg_id is Some && conn_has(st_c.conn_info@, p.dest@) {
                        lemma_conn_index_of(st_c.conn_info@, p.dest@);
                    }
                }
                let mut v: Vec<Packet> = Vec::new();
                v.push(p);
                proof {
                    assert(v@ =~= seq![v@[0]]);
                }
                v
            },
            Collection::Multiple(ps) => {
                let ghost psv = ps@;
                let own = match &self.state {
                    Some(st) => st.node_id.clone(),
                    None => vstd::pervasive::unreached(),
                };
                let gs = group_by_dest(ps);
                let ghost gs0 = gs@;
                let ghost mut tr: Seq<NodeInfo> = seq![st_c];
                let mut out: Vec<Packet> = Vec::new();
                let mut ds = gs;
                proof {
                    assert(gs0.subrange(0, 0) =~= Seq::<(String, Vec<Packet>)>::empty());
                }
                while ds.len() > 0
                    invariant
                        self.state is Some,
                        self.handlers == old(self).handlers,
                        own == st_c.node_id,
                        out@.len() + ds@.len() == gs0.len(),
                        forall|j: int| 0 <= j < ds@.len() ==> ds@[j] == gs0[out@.len() + j],
                        tr.len() == out@.len() + 1,
                        tr[0] == st_c,
                        tr.last() == self.state->0,
                        groups_enroll_trace(tr, gs0.subrange(0, out@.len() as int)),
                        forall|k: int|
                            0 <= k < out@.len() ==> {
                                let g = (#[trigger] gs0[k]).1@;
                                if g.len() == 1 {
                                    out@[k] == g[0]
                                } else {
                                    &&& out@[k].src == st_c.node_id
                                    &&& out@[k].dest == gs0[k].0
                                    &&& out@[k].body.msg_id is None
                                    &&& out@[k].body.in_reply_to is None
                                    &&& (out@[k].body.payload matches Payload::Batch { messages }
                                        && messages@ == bodies_of(g))
                                }
                            },
                    decreases ds@.len(),
                {
                    let ghost k = out@.len() as int;
                    let (key, group) = ds.remove(0);
                    let ghost g0 = group@;
                    proof {
                        assert((key, group) == gs0[k]);
                    }
                    let ghost st_pre = self.state->0;
                    let mut j: usize = 0;
                    proof {
                        assert(g0.subrange(0, 0) =~= Seq::<Packet>::empty());
                        assert(bodies_of(Seq::<Packet>::empty()) =~= Seq::<Message>::empty());
                        assert(stamped_of(Seq::<Message>::empty()) =~= Seq::<Message>::empty())
                            by {
                            reveal(Seq::filter);
                        }
                    }
                    while j < group.len()
                        invariant
                            self.state is Some,
                            self.handlers == old(self).handlers,
                            group@ == g0,
                            0 <= j <= g0.len(),
                            group_enroll_post(
                                st_pre,
                                key,
                                bodies_of(g0.subrange(0, j as int)),
                                self.state->0,
                            ),
                        decreases g0.len() - j,
                    {
                        let ghost cur = self.state->0;
                        self.enroll_message(&key, &group[j].body);
                        proof {
                            assert(g0.subrange(0, j + 1) =~= g0.subrange(0, j as int).push(
                                g0[j as int],
                            ));
                            assert(bodies_of(g0.subrange(0, j + 1)) =~= bodies_of(
                                g0.subrange(0, j as int),
                            ).push(g0[j as int].body));
                            lemma_group_enroll_extend(
                                st_pre,
                                key,
                                bodies_of(g0.subrange(0, j as int)),
                                cur,
                                g0[j as int].body,
                                self.state->0,
                            );
                        }
                        j = j + 1;
                    }
                    proof {
                        assert(g0.subrange(0, g0.len() as int) =~= g0);
                        assert(group_enroll_post(st_pre, key, bodies_of(g0), self.state->0));
                    }
                    let pkt = if group.len() == 1 {
                        // A lone envelope leaves verbatim: its source is
                        // preserved, so a broadcast forwarded on a peer's
                        // behalf keeps that peer as its source downstream.
                        let mut g = group;
                        match g.pop() {
                            Some(p) => p,
                            None => vstd::pervasive::unreached(),
                        }
                    } else {
                        let mut bs: Vec<Message> = Vec::new();
                        let mut q = group;
                        while q.len() > 0
                            invariant
                                bs@.len() + q@.len() == g0.len(),
                                forall|t: int| 0 <= t < q@.len() ==> q@[t] == g0[bs@.len() + t],
                                bs@ == bodies_of(g0.subrange(0, bs@.len() as int)),
                            decreases q@.len(),
                        {
                            let ghost done = bs@.len() as int;
                            let p = q.remove(0);
                            bs.push(p.body);
                            proof {
                                assert(g0.subrange(0, done + 1) =~= g0.subrange(0, done).push(
                                    g0[done],
                                ));
                                assert(bs@ =~= bodies_of(g0.subrange(0, done + 1)));
                            }
                        }
                        proof {
                            assert(g0.subrange(0, g0.len() as int) =~= g0);
                            assert(bs@ =~= bodies_of(g0));
                        }
                        Packet {
                            src: own.clone(),
                            dest: key,
                            body: Message {
                                msg_id: None,
                                in_reply_to: None,
                                payload: Payload::Batch { messages: bs },
                            },
                        }
                    };
                    out.push(pkt);
                    proof {
                        tr = tr.push(self.state->0);
                        assert(gs0.subrange(0, k + 1) =~= gs0.subrange(0, k).push(gs0[k]));
                        assert forall|i: int|
                            0 <= i < k + 1 implies group_enroll_post(
                            tr[i],
                            (#[trigger] gs0.subrange(0, k + 1)[i]).0,
                            bodies_of(gs0.subrange(0, k + 1)[i].1@),
                            tr[i + 1],
                        ) by {
                            if i < k {
                                assert(group_enroll_post(
                                    tr[i],
                                    gs0.subrange(0, k)[i].0,
                                    bodies_of(gs0.subrange(0, k)[i].1@),
                                    tr[i + 1],
                                ));
                            }
                        }
                        assert(groups_enroll_trace(tr, gs0.subrange(0, k + 1)));
                        if g0.len() == 1 {
                            assert(out@[k] == g0[0]);
                        }
                    }
                }
                proof {
                    assert(gs0.subrange(0, gs0.len() as int) =~= gs0);
                    assert(groups_enroll_trace(tr, gs0));
                    lemma_groups_chain(tr, gs0, 0, tr.len() - 1);
                    assert(emission_grouped(st_c, psv, self.state->0, out@));
                }
                out
            },
        }
    }

    /// Perform the `init` handshake: build the node state from the first
    /// envelope and answer `init_ok`.  A first envelope that is not a
    /// well-formed `init` is a fatal protocol violation.
    fn init_step(&mut self, packet: Packet) -> (r: Result<Vec<Packet>, EngineError>)
        requires
            old(self).state is None,
        ensures
            init_post(*old(self), packet, *final(self), r),
            engine_wf(*final(self)),
    {
        match packet {
            Packet {
                src,
                body: Message { msg_id, payload: Payload::Init { node_id, node_ids }, .. },
                ..
            } => {
                match crate::types::helpers::parse_node_number_checked(node_id.as_str()) {
                    Some(node_number) => {
                        let mut client_nodes: Vec<String> = Vec::new();
                        let mut server_nodes: Vec<String> = Vec::new();
                        let mut i: usize = 0;
                        proof {
                            assert(node_ids@.subrange(0, 0) =~= Seq::<String>::empty());
                            assert(client_partition(Seq::<String>::empty()) =~= Seq::<
                                String,
                            >::empty()) by {
                                reveal(Seq::filter);
                            }
                            assert(server_partition(Seq::<String>::empty()) =~= Seq::<
                                String,
                            >::empty()) by {
                                reveal(Seq::filter);
                            }
                        }
                        while i < node_ids.len()
                            invariant
                                0 <= i <= node_ids@.len(),
                                client_nodes@ == client_partition(node_ids@.subrange(0, i as int)),
                                server_nodes@ == server_partition(node_ids@.subrange(0, i as int)),
                            decreases node_ids@.len() - i,
                        {
                            let ghost pfx = node_ids@.subrange(0, i as int);
                            proof {
                                assert(node_ids@.subrange(0, i + 1) =~= pfx.push(
                                    node_ids@[i as int],
                                ));
                                assert(client_partition(pfx.push(node_ids@[i as int]))
                                    == if crate::types::helpers::is_client_id(
                                    node_ids@[i as int]@,
                                ) {
                                    client_partition(pfx).push(node_ids@[i as int])
                                } else {
                                    client_partition(pfx)
                                }) by {
                                    reveal(Seq::filter);
                                    assert(pfx.push(node_ids@[i as int]).drop_last() =~= pfx);
                                }
                                assert(server_partition(pfx.push(node_ids@[i as int]))
                                    == if crate::types::helpers::is_server_id(
                                    node_ids@[i as int]@,
                                ) {
                                    server_partition(pfx).push(node_ids@[i as int])
                                } else {
                                    server_partition(pfx)
                                }) by {
                                    reveal(Seq::filter);
                                    assert(pfx.push(node_ids@[i as int]).drop_last() =~= pfx);
                                }
                            }
                            let id = &node_ids[i];
                            if crate::types::helpers::id_has_class(id.as_str(), 'c') {
                                client_nodes.push(id.clone());
                            }
                            if crate::types::helpers::id_has_class(id.as_str(), 'n') {
                                server_nodes.push(id.clone());
                            }
                            i = i + 1;
                        }
                        proof {
                            assert(node_ids@.subrange(0, node_ids@.len() as int) =~= node_ids@);
                        }
                        let mut conn_info: Vec<(String, NodeConnectionInfo)> = Vec::new();
                        let mut j: usize = 0;
                        while j < server_nodes.len()
                            invariant
                                0 <= j <= server_nodes@.len(),
                                conn_info@.len() == j,
                                forall|t: int|
                                    0 <= t < j ==> (#[trigger] conn_info@[t]).0
                                        == server_nodes@[t],
                                forall|t: int|
                                    0 <= t < j ==> (#[trigger] conn_info@[t]).1.out_msg_id == 0,
                                forall|t: int|
                                    0 <= t < j ==> (#[trigger] conn_info@[t]).1.in_msg_id
                                        == (MessageSyncStatus::Synced { last_msg_id: 0 }),
                                forall|t: int|
                                    0 <= t < j
                                        ==> (#[trigger] conn_info@[t]).1.un_ack_messages@.len()
                                        == 0,
                            decreases server_nodes@.len() - j,
                        {
                            conn_info.push(
                                (
                                    server_nodes[j].clone(),
                                    NodeConnectionInfo {
                                        out_msg_id: 0,
                                        in_msg_id: MessageSyncStatus::Synced { last_msg_id: 0 },
                                        un_ack_messages: Vec::new(),
                                    },
                                ),
                            );
                            j = j + 1;
                        }
                        let reply = Packet {
                            src: node_id.clone(),
                            dest: src,
                            body: Message {
                                msg_id: None,
                                in_reply_to: msg_id,
                                payload: Payload::InitOk,
                            },
                        };
                        self.state = Some(
                            NodeInfo {
                                node_id,
                                client_nodes,
                                server_nodes,
                                node_ids,
                                topology: Vec::new(),
                                broadcast_topology: Vec::new(),
                                node_number,
                                msg_number: 0,
                                conn_info,
                            },
                        );
                        let mut v: Vec<Packet> = Vec::new();
                        v.push(reply);
                        Ok(v)
                    },
                    None => Err(EngineError::InvalidNodeId),
                }
            },
            _ => Err(EngineError::ExpectedInit),
        }
    }

    /// Process one inbound envelope and return the envelopes to send, in
    /// emission order.  The first envelope performs the handshake; after
    /// that, each envelope passes the inbound sequence check, reply
    /// reconciliation, payload dispatch, and emission with batching.
    pub fn step(&mut self, packet: Packet) -> (r: Result<Vec<Packet>, EngineError>)
        requires
            engine_wf(*old(self)),
            old(self).state is Some ==> generate_budget(
                old(self).handlers@,
                old(self).state->0,
                step_weight(packet),
            ),
        ensures
            engine_wf(*final(self)),
            step_post(*old(self), packet, *final(self), r),
            step_remembers(*old(self), packet, *final(self)),
            step_observes(*old(self), packet, *final(self)),
            step_frames(*old(self), packet, *final(self)),
    {
        if !self.is_initialized() {
            return self.init_step(packet);
        }
        let ghost pre = *self;
        let ghost st0 = self.state->0;
        // Inbound sequence check: a duplicate is dropped before anything
        // can change.
        let dup = match &self.state {
            Some(st) => match packet.body.msg_id {
                Some(k) => match conn_find(&st.conn_info, &packet.src) {
                    Some(i) => st.conn_info[i].1.in_msg_id.has_received_msg(k),
                    None => false,
                },
                None => false,
            },
            None => vstd::pervasive::unreached(),
        };
        if dup {
            proof {
                lemma_conn_index_of(st0.conn_info@, packet.src@);
            }
            let v: Vec<Packet> = Vec::new();
            return Ok(v);
        }
        let mut needs_sync = false;
        match &mut self.state {
            Some(st) => {
                match packet.body.msg_id {
                    Some(k) => {
                        match conn_find(&st.conn_info, &packet.src) {
                            Some(i) => {
                                let ghost pre_conn = st.conn_info@;
                                let entry = &mut st.conn_info[i];
                                let outcome = entry.1.in_msg_id.receive_msg_id(k);
                                match outcome {
                                    ReceiveOutcome::GapDetected => {
                                        needs_sync = true;
                                    },
                                    _ => {},
                                }
                                proof {
                                    assert(forall|j: int|
                                        0 <= j < pre_conn.len() && j != i ==> st.conn_info@[j]
                                            == pre_conn[j]);
                                }
                            },
                            None => {},
                        }
                    },
                    None => {},
                }
            },
            None => vstd::pervasive::unreached(),
        }
        let ghost st_a = self.state->0;
        proof {
            assert(inbound_applied(st0, packet, st_a, needs_sync));
        }
        match packet.body.in_reply_to {
            Some(irt) => {
                let _ = self.ack_packet(&packet.src, irt);
            },
            None => {},
        }
        let ghost st_b = self.state->0;
        proof {
            assert(reply_reconciled(st_a, packet, st_b));
            lemma_budget_transfer(self.handlers@, st0, st_b, step_weight(packet));
        }
        let sync_opt = if needs_sync {
            Some(
                Packet {
                    src: packet.dest.clone(),
                    dest: packet.src.clone(),
                    body: Message {
                        msg_id: None,
                        in_reply_to: None,
                        payload: Payload::SyncRequest,
                    },
                },
            )
        } else {
            None
        };
        let rc = self.handle_packet(packet);
        let ghost st_c = self.state->0;
        let ghost hs_c = self.handlers@;
        let ghost rc_g = rc;
        let sync_coll = match sync_opt {
            Some(p) => Collection::One(p),
            None => Collection::Empty,
        };
        let merged = sync_coll.merge(rc);
        let ghost merged_g = merged;
        let out = self.emit(merged);
        proof {
            let w = StepTrace {
                st_a,
                needs_sync,
                st_b,
                st_c,
                hs_c,
                rc: rc_g,
                merged: merged_g,
            };
            assert(step_stages(pre, packet, *self, out@, w));
            // Nothing after the sequence check touches an inbound status
            // or a connection key, so well-formedness and the memory of
            // received numbers survive the step.
            let fin = self.state->0;
            assert(statuses_preserved(st_b, st_c));
            assert(statuses_preserved(st_c, fin));
            if packet.body.in_reply_to is Some && conn_has(st_a.conn_info@, packet.src@) {
                lemma_conn_index_of(st_a.conn_info@, packet.src@);
            }
            assert forall|m: int|
                0 <= m < fin.conn_info@.len() implies ((#[trigger] fin.conn_info@[m]).1.in_msg_id
                == st_a.conn_info@[m].1.in_msg_id && fin.conn_info@[m].0@
                == st0.conn_info@[m].0@) by {
                assert(fin.conn_info@[m].1.in_msg_id == st_c.conn_info@[m].1.in_msg_id);
                assert(st_c.conn_info@[m].1.in_msg_id == st_b.conn_info@[m].1.in_msg_id);
                assert(st_b.conn_info@[m].1.in_msg_id == st_a.conn_info@[m].1.in_msg_id);
                assert(fin.conn_info@[m].0 == st_c.conn_info@[m].0);
                assert(st_c.conn_info@[m].0 == st_b.conn_info@[m].0);
                assert(st_b.conn_info@[m].0 == st_a.conn_info@[m].0);
                assert(st_a.conn_info@[m].0 == st0.conn_info@[m].0);
            }
            assert forall|m: int|
                0 <= m < fin.conn_info@.len() implies (#[trigger] fin.conn_info@[m]).1.in_msg_id.wf() by {
                if packet.body.msg_id is Some && conn_has(st0.conn_info@, packet.src@) {
                    lemma_conn_index_of(st0.conn_info@, packet.src@);
                    let i = conn_index_of(st0.conn_info@, packet.src@);
                    if m != i {
                        assert(st_a.conn_info@[m] == st0.conn_info@[m]);
                    }
                } else {
                    assert(st_a == st0);
                }
            }
            if packet.body.msg_id is Some && conn_has(st0.conn_info@, packet.src@) {
                lemma_conn_index_of(st0.conn_info@, packet.src@);
                lemma_conn_same_keys(st0.conn_info@, fin.conn_info@, packet.src@);
                let i = conn_index_of(st0.conn_info@, packet.src@);
                assert(receive_post(
                    st0.conn_info@[i].1.in_msg_id,
                    packet.body.msg_id->0,
                    st_a.conn_info@[i].1.in_msg_id,
                    receive_outcome_of(st0.conn_info@[i].1.in_msg_id, packet.body.msg_id->0),
                ));
                assert(fin.conn_info@[i].1.in_msg_id == st_a.conn_info@[i].1.in_msg_id);
            }
            assert forall|m: int|
                0 <= m < fin.conn_info@.len() && !(packet.body.msg_id is Some && conn_has(
                    st0.conn_info@,
                    packet.src@,
                ) && m == conn_index_of(st0.conn_info@, packet.src@)) implies (
            #[trigger] fin.conn_info@[m]).1.in_msg_id == st0.conn_info@[m].1.in_msg_id by {
                if packet.body.msg_id is Some && conn_has(st0.conn_info@, packet.src@) {
                    lemma_conn_index_of(st0.conn_info@, packet.src@);
                    assert(st_a.conn_info@[m] == st0.conn_info@[m]);
                } else {
                    assert(st_a == st0);
                }
            }
        }
        let ghost outv = out@;
        let r: Result<Vec<Packet>, EngineError> = Ok(out);
        proof {
            let w = StepTrace {
                st_a,
                needs_sync,
                st_b,
                st_c,
                hs_c,
                rc: rc_g,
                merged: merged_g,
            };
            assert(r->Ok_0@ == outv);
            assert(step_stages(pre, packet, *self, r->Ok_0@, w));
            assert(exists|w: StepTrace|
                #![trigger step_stages(pre, packet, *self, r->Ok_0@, w)]
                step_stages(pre, packet, *self, r->Ok_0@, w));
        }
        r
    }
}

} // verus!
