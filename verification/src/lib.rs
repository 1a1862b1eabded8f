//! A verified node for a Maelstrom-style distributed workload.
//!
//! The node consumes request envelopes, dispatches them through a handler
//! chain, tracks per-peer sequence numbers in both directions, detects gaps,
//! requests retransmission, and derives a per-source broadcast forwarding
//! topology.  All I/O (the newline-delimited JSON framing) lives outside this
//! library; the library works on plain envelope values.

pub mod packet_handler;
pub use packet_handler::{EngineError, Handler, PacketHandler};

pub mod types;
pub use types::{
    collection::Collection,
    helpers::{build_broadcast_topology, is_lower_node_id, parse_node_number},
    message::Message,
    message_handler::MessageHandler,
    message_response::MessageResponse,
    node_info::{MessageSyncStatus, NodeConnectionInfo, NodeInfo, ReceiveOutcome},
    packet::Packet,
    payload::Payload,
    topology::{BroadcastTopology, Topology},
};

pub use types::{
    broadcast_handler::BroadcastHandler, echo_handler::EchoHandler,
    generate_handler::GenerateHandler, topology_handler::TopologyHandler,
};
