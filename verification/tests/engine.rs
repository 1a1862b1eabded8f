use maelstrom_node::{
    BroadcastHandler, Collection, EchoHandler, EngineError, GenerateHandler, Handler, Message,
    MessageSyncStatus, Packet, PacketHandler, Payload, ReceiveOutcome,
};

fn msg(msg_id: Option<usize>, in_reply_to: Option<usize>, payload: Payload) -> Message {
    Message {
        msg_id,
        in_reply_to,
        payload,
    }
}

fn packet(src: &str, dest: &str, body: Message) -> Packet {
    Packet {
        src: src.to_string(),
        dest: dest.to_string(),
        body,
    }
}

fn init_packet(node_id: &str, node_ids: &[&str]) -> Packet {
    packet(
        "c1",
        node_id,
        msg(
            Some(1),
            None,
            Payload::Init {
                node_id: node_id.to_string(),
                node_ids: node_ids.iter().map(|s| s.to_string()).collect(),
            },
        ),
    )
}

fn full_engine(node_id: &str, node_ids: &[&str]) -> PacketHandler {
    let mut engine = PacketHandler::new();
    engine.add_handler(Handler::Echo(EchoHandler {}));
    engine.add_handler(Handler::Generate(GenerateHandler { counter: 0 }));
    engine.add_handler(Handler::Broadcast(BroadcastHandler { messages: vec![] }));
    let out = engine.step(init_packet(node_id, node_ids)).unwrap();
    assert_eq!(out.len(), 1);
    out.iter().for_each(|p| {
        assert_eq!(p.src, node_id);
        assert_eq!(p.dest, "c1");
        assert_eq!(p.body.in_reply_to, Some(1));
        assert!(matches!(p.body.payload, Payload::InitOk));
    });
    engine
}

fn conn_status<'a>(engine: &'a PacketHandler, peer: &str) -> &'a MessageSyncStatus {
    let st = engine.state.as_ref().unwrap();
    &st.conn_info.iter().find(|(k, _)| k == peer).unwrap().1.in_msg_id
}

// The echo handshake, end to end: `init` is answered with `init_ok`, and
// `echo` with `echo_ok` repeating the payload.
#[test]
fn test_echo_handshake() {
    let mut engine = full_engine("n0", &["n0", "c1"]);
    let out = engine
        .step(packet(
            "c1",
            "n0",
            msg(
                Some(2),
                None,
                Payload::Echo {
                    echo: "hello".to_string(),
                },
            ),
        ))
        .unwrap();
    assert_eq!(out.len(), 1);
    assert_eq!(out[0].src, "n0");
    assert_eq!(out[0].dest, "c1");
    assert_eq!(out[0].body.msg_id, None);
    assert_eq!(out[0].body.in_reply_to, Some(2));
    assert_eq!(
        out[0].body.payload,
        Payload::EchoOk {
            echo: "hello".to_string()
        }
    );
}

// Generated ids on node n3 of a five-node cluster: 1 * 5 + 3, then
// 2 * 5 + 3.
#[test]
fn test_generate_uniqueness() {
    let mut engine = full_engine("n3", &["n0", "n1", "n2", "n3", "n4"]);
    let out = engine
        .step(packet("c1", "n3", msg(None, None, Payload::Generate)))
        .unwrap();
    assert_eq!(out.len(), 1);
    assert_eq!(out[0].body.payload, Payload::GenerateOk { id: 8 });
    let out = engine
        .step(packet("c1", "n3", msg(None, None, Payload::Generate)))
        .unwrap();
    assert_eq!(out[0].body.payload, Payload::GenerateOk { id: 13 });
}

// A topology envelope is acknowledged and rebuilds the forwarding map;
// the node's own entry is its direct neighbour set.
#[test]
fn test_topology_rebuild() {
    let mut engine = full_engine("n0", &["n0", "n1", "c1"]);
    let topology = vec![
        ("n0".to_string(), vec!["n1".to_string()]),
        ("n1".to_string(), vec!["n0".to_string()]),
    ];
    let out = engine
        .step(packet("c1", "n0", msg(Some(2), None, Payload::Topology { topology })))
        .unwrap();
    assert_eq!(out.len(), 1);
    assert!(matches!(out[0].body.payload, Payload::TopologyOk));
    assert_eq!(out[0].dest, "c1");
    let st = engine.state.as_ref().unwrap();
    let own = &st
        .broadcast_topology
        .iter()
        .find(|(k, _)| k == "n0")
        .unwrap()
        .1;
    assert_eq!(own, &vec!["n1".to_string()]);
}

// A gap in a peer's sequence numbers schedules a sync request in the same
// step as the handler's own output, batched together.
#[test]
fn test_gap_triggers_sync() {
    let mut engine = full_engine("n0", &["n0", "n1", "c1"]);
    let out = engine
        .step(packet(
            "n1",
            "n0",
            msg(Some(1), None, Payload::Broadcast { message: 5 }),
        ))
        .unwrap();
    assert_eq!(out.len(), 1);
    assert!(matches!(out[0].body.payload, Payload::BroadcastOk));
    let out = engine
        .step(packet(
            "n1",
            "n0",
            msg(Some(4), None, Payload::Broadcast { message: 6 }),
        ))
        .unwrap();
    assert_eq!(out.len(), 1);
    assert_eq!(out[0].dest, "n1");
    assert_eq!(out[0].src, "n0");
    match &out[0].body.payload {
        Payload::Batch { messages } => {
            assert_eq!(messages.len(), 2);
            assert!(messages
                .iter()
                .any(|m| matches!(m.payload, Payload::SyncRequest)));
            assert!(messages
                .iter()
                .any(|m| matches!(m.payload, Payload::BroadcastOk)));
        }
        other => panic!("expected a batch, got {:?}", other),
    }
    match conn_status(&engine, "n1") {
        MessageSyncStatus::NotSynced {
            last_msg_id,
            missing_msg_ids,
        } => {
            assert_eq!(*last_msg_id, 4);
            let mut missing = missing_msg_ids.clone();
            missing.sort();
            assert_eq!(missing, vec![2, 3]);
        }
        other => panic!("expected a gap, got {:?}", other),
    }
}

// A redelivered sequence number is dropped silently: no output, no
// handler invocation, no stored value.
#[test]
fn test_duplicate_suppression() {
    let mut engine = full_engine("n0", &["n0", "n1", "c1"]);
    let envelope = |_| {
        packet(
            "n1",
            "n0",
            msg(Some(1), None, Payload::Broadcast { message: 7 }),
        )
    };
    let out = engine.step(envelope(())).unwrap();
    assert_eq!(out.len(), 1);
    let out = engine.step(envelope(())).unwrap();
    assert!(out.is_empty());
    match &engine.handlers[2] {
        Handler::Broadcast(h) => assert_eq!(h.messages, vec![7]),
        other => panic!("unexpected handler {:?}", other),
    }
}

// In-order delivery with no losses and no duplicates ends synced at the
// greatest delivered sequence number.
#[test]
fn test_in_order_delivery_stays_synced() {
    let mut engine = full_engine("n0", &["n0", "n1", "c1"]);
    for k in 1..=3usize {
        engine
            .step(packet(
                "n1",
                "n0",
                msg(Some(k), None, Payload::Broadcast { message: k }),
            ))
            .unwrap();
    }
    match conn_status(&engine, "n1") {
        MessageSyncStatus::Synced { last_msg_id } => assert_eq!(*last_msg_id, 3),
        other => panic!("expected synced, got {:?}", other),
    }
}

// Interleaved traffic from several peers leaves every peer's own ordering
// intact: each ends synced at its greatest sent number.
#[test]
fn test_interleaved_peers_stay_synced() {
    let mut engine = full_engine("n0", &["n0", "n1", "n2", "c1"]);
    for (peer, k) in [("n1", 1usize), ("n2", 1), ("n1", 2), ("n2", 2), ("n1", 3)] {
        engine
            .step(packet(
                peer,
                "n0",
                msg(Some(k), None, Payload::Broadcast { message: 10 * k }),
            ))
            .unwrap();
    }
    match conn_status(&engine, "n1") {
        MessageSyncStatus::Synced { last_msg_id } => assert_eq!(*last_msg_id, 3),
        other => panic!("expected synced, got {:?}", other),
    }
    match conn_status(&engine, "n2") {
        MessageSyncStatus::Synced { last_msg_id } => assert_eq!(*last_msg_id, 2),
        other => panic!("expected synced, got {:?}", other),
    }
}

// Filling the last gap flips the status back to synced.
#[test]
fn test_gap_fill_resyncs() {
    let mut engine = full_engine("n0", &["n0", "n1", "c1"]);
    for k in [1usize, 3, 2] {
        engine
            .step(packet(
                "n1",
                "n0",
                msg(Some(k), None, Payload::Broadcast { message: k }),
            ))
            .unwrap();
    }
    match conn_status(&engine, "n1") {
        MessageSyncStatus::Synced { last_msg_id } => assert_eq!(*last_msg_id, 3),
        other => panic!("expected synced, got {:?}", other),
    }
}

fn forwarded(k: usize) -> Packet {
    packet(
        "c1",
        "n0",
        msg(
            None,
            None,
            Payload::Forward {
                packet: Box::new(packet(
                    "n0",
                    "n1",
                    msg(Some(k), None, Payload::Broadcast { message: 10 * k }),
                )),
            },
        ),
    )
}

// Unacknowledged envelopes are replayed on request, batched, with their
// original sequence numbers preserved.
#[test]
fn test_sync_replay() {
    let mut engine = full_engine("n0", &["n0", "n1", "c1"]);
    for k in 1..=3usize {
        let out = engine.step(forwarded(k)).unwrap();
        assert_eq!(out.len(), 1);
        assert_eq!(out[0].body.msg_id, Some(k));
        assert_eq!(out[0].dest, "n1");
    }
    let out = engine
        .step(packet("n1", "n0", msg(None, None, Payload::SyncRequest)))
        .unwrap();
    assert_eq!(out.len(), 1);
    assert_eq!(out[0].dest, "n1");
    assert_eq!(out[0].src, "n0");
    match &out[0].body.payload {
        Payload::Batch { messages } => {
            let ids: Vec<Option<usize>> = messages.iter().map(|m| m.msg_id).collect();
            assert_eq!(ids, vec![Some(1), Some(2), Some(3)]);
        }
        other => panic!("expected a batch, got {:?}", other),
    }
    // The replayed envelopes are buffered again until acknowledged.
    let out = engine
        .step(packet("n1", "n0", msg(None, None, Payload::SyncRequest)))
        .unwrap();
    assert_eq!(out.len(), 1);
}

// A reply's `in_reply_to` acknowledges the matching buffered envelope.
#[test]
fn test_ack_removes_buffered_envelope() {
    let mut engine = full_engine("n0", &["n0", "n1", "c1"]);
    for k in 1..=3usize {
        engine.step(forwarded(k)).unwrap();
    }
    let out = engine
        .step(packet("n1", "n0", msg(None, Some(2), Payload::Ack)))
        .unwrap();
    assert!(out.is_empty());
    let out = engine
        .step(packet("n1", "n0", msg(None, None, Payload::SyncRequest)))
        .unwrap();
    assert_eq!(out.len(), 1);
    match &out[0].body.payload {
        Payload::Batch { messages } => {
            let mut ids: Vec<usize> = messages.iter().map(|m| m.msg_id.unwrap()).collect();
            ids.sort();
            assert_eq!(ids, vec![1, 3]);
        }
        other => panic!("expected a batch, got {:?}", other),
    }
}

// A bulk acknowledgement clears every listed sequence number at once.
#[test]
fn test_multi_ack_clears_buffer() {
    let mut engine = full_engine("n0", &["n0", "n1", "c1"]);
    for k in 1..=3usize {
        engine.step(forwarded(k)).unwrap();
    }
    let out = engine
        .step(packet(
            "n1",
            "n0",
            msg(None, None, Payload::MultiAck { messages: vec![1, 2, 3] }),
        ))
        .unwrap();
    assert!(out.is_empty());
    let out = engine
        .step(packet("n1", "n0", msg(None, None, Payload::SyncRequest)))
        .unwrap();
    assert!(out.is_empty());
}

// A batch is handled as if each enclosed message had arrived on its own,
// and the answers keep the enclosed order.
#[test]
fn test_batch_fanout() {
    let mut engine = full_engine("n0", &["n0", "c1"]);
    let out = engine
        .step(packet(
            "c1",
            "n0",
            msg(
                None,
                None,
                Payload::Batch {
                    messages: vec![
                        msg(
                            Some(7),
                            None,
                            Payload::Echo {
                                echo: "a".to_string(),
                            },
                        ),
                        msg(None, None, Payload::Generate),
                    ],
                },
            ),
        ))
        .unwrap();
    assert_eq!(out.len(), 1);
    assert_eq!(out[0].dest, "c1");
    match &out[0].body.payload {
        Payload::Batch { messages } => {
            assert_eq!(messages.len(), 2);
            assert_eq!(
                messages[0].payload,
                Payload::EchoOk {
                    echo: "a".to_string()
                }
            );
            assert_eq!(messages[0].in_reply_to, Some(7));
            assert_eq!(messages[1].payload, Payload::GenerateOk { id: 2 });
        }
        other => panic!("expected a batch, got {:?}", other),
    }
}

// A second `init` is answered with the Maelstrom error for a repeated
// handshake.
#[test]
fn test_second_init_is_error_14() {
    let mut engine = full_engine("n0", &["n0", "c1"]);
    let out = engine.step(init_packet("n0", &["n0", "c1"])).unwrap();
    assert_eq!(out.len(), 1);
    match &out[0].body.payload {
        Payload::Error { code, text } => {
            assert_eq!(*code, 14);
            assert_eq!(text, "Got second Init Message");
        }
        other => panic!("expected an error, got {:?}", other),
    }
}

// The first envelope must be a well-formed `init`.
#[test]
fn test_init_violations_are_fatal() {
    let mut engine = PacketHandler::new();
    let r = engine.step(packet(
        "c1",
        "n0",
        msg(
            Some(1),
            None,
            Payload::Echo {
                echo: "x".to_string(),
            },
        ),
    ));
    assert_eq!(r, Err(EngineError::ExpectedInit));

    let mut engine = PacketHandler::new();
    let r = engine.step(init_packet("nope", &["nope", "c1"]));
    assert_eq!(r, Err(EngineError::InvalidNodeId));
}

// A broadcast from a peer with a forwarding entry is forwarded on that
// peer's behalf, keeping the original source.
#[test]
fn test_broadcast_forwarding_keeps_provenance() {
    let mut engine = full_engine("n0", &["n0", "n1", "n2", "c1"]);
    let topology = vec![
        ("n0".to_string(), vec!["n1".to_string(), "n2".to_string()]),
        ("n1".to_string(), vec!["n0".to_string()]),
        ("n2".to_string(), vec!["n0".to_string()]),
    ];
    engine
        .step(packet("c1", "n0", msg(None, None, Payload::Topology { topology })))
        .unwrap();
    let out = engine
        .step(packet(
            "n1",
            "n0",
            msg(Some(1), None, Payload::Broadcast { message: 9 }),
        ))
        .unwrap();
    // n1's entry keeps n2 as a target: the broadcast travels on, stamped
    // with its original source.
    assert_eq!(out.len(), 1);
    assert_eq!(out[0].src, "n1");
    assert_eq!(out[0].dest, "n2");
    assert_eq!(out[0].body.payload, Payload::Broadcast { message: 9 });
}

// `read` returns every stored broadcast value.
#[test]
fn test_read_returns_stored_values() {
    let mut engine = full_engine("n0", &["n0", "n1", "c1"]);
    for k in 1..=2usize {
        engine
            .step(packet(
                "n1",
                "n0",
                msg(Some(k), None, Payload::Broadcast { message: 100 + k }),
            ))
            .unwrap();
    }
    let out = engine
        .step(packet("c1", "n0", msg(Some(5), None, Payload::Read)))
        .unwrap();
    assert_eq!(out.len(), 1);
    assert_eq!(
        out[0].body.payload,
        Payload::ReadOk {
            messages: vec![101, 102]
        }
    );
    assert_eq!(out[0].body.in_reply_to, Some(5));
}

// The inbound status machine, in isolation.
#[test]
fn test_receive_msg_id_outcomes() {
    let mut status = MessageSyncStatus::Synced { last_msg_id: 0 };
    assert_eq!(status.receive_msg_id(1), ReceiveOutcome::Accepted);
    assert_eq!(status.receive_msg_id(1), ReceiveOutcome::Duplicate);
    assert_eq!(status.receive_msg_id(4), ReceiveOutcome::GapDetected);
    assert!(!status.is_synced());
    assert_eq!(status.receive_msg_id(2), ReceiveOutcome::Accepted);
    assert!(!status.is_synced());
    assert_eq!(status.receive_msg_id(3), ReceiveOutcome::Accepted);
    assert!(status.is_synced());
    match status {
        MessageSyncStatus::Synced { last_msg_id } => assert_eq!(last_msg_id, 4),
        other => panic!("expected synced, got {:?}", other),
    }
}

// The response-collection algebra: push appends, merge concatenates, so
// production order is preserved everywhere.
#[test]
fn test_collection_algebra() {
    let c: Collection<usize> = Collection::Empty;
    let c = c.push(1);
    assert_eq!(c, Collection::One(1));
    let c = c.push(2);
    assert_eq!(c, Collection::Multiple(vec![1, 2]));
    let merged = Collection::One(9).merge(Collection::Multiple(vec![3, 4]));
    assert_eq!(merged.into_vec(), vec![9, 3, 4]);
    let merged = Collection::Multiple(vec![3, 4]).merge(Collection::One(9));
    assert_eq!(merged.into_vec(), vec![3, 4, 9]);
    let merged = Collection::One(1).merge(Collection::One(2));
    assert_eq!(merged.into_vec(), vec![1, 2]);
    assert_eq!(Collection::<usize>::from_vec(vec![]), Collection::Empty);
    assert_eq!(Collection::from_vec(vec![5]), Collection::One(5));
    assert_eq!(
        Collection::from_vec(vec![5, 6]),
        Collection::Multiple(vec![5, 6])
    );
}

// The same value arriving again over another path is stored once and
// reported once.
#[test]
fn test_read_suppresses_duplicates() {
    let mut engine = full_engine("n0", &["n0", "n1", "c1"]);
    for k in 1..=2usize {
        engine
            .step(packet(
                "n1",
                "n0",
                msg(Some(k), None, Payload::Broadcast { message: 7 }),
            ))
            .unwrap();
    }
    let out = engine
        .step(packet("c1", "n0", msg(Some(5), None, Payload::Read)))
        .unwrap();
    assert_eq!(out.len(), 1);
    assert_eq!(out[0].body.payload, Payload::ReadOk { messages: vec![7] });
}

// A batch inside a batch is flattened in turn: each enclosed message is
// handled as if it had arrived on its own.
#[test]
fn test_nested_batch_is_flattened() {
    let mut engine = full_engine("n0", &["n0", "c1"]);
    let inner = msg(
        None,
        None,
        Payload::Batch {
            messages: vec![msg(
                Some(8),
                None,
                Payload::Echo {
                    echo: "b".to_string(),
                },
            )],
        },
    );
    let out = engine
        .step(packet(
            "c1",
            "n0",
            msg(
                None,
                None,
                Payload::Batch {
                    messages: vec![
                        msg(
                            Some(7),
                            None,
                            Payload::Echo {
                                echo: "a".to_string(),
                            },
                        ),
                        inner,
                    ],
                },
            ),
        ))
        .unwrap();
    assert_eq!(out.len(), 1);
    match &out[0].body.payload {
        Payload::Batch { messages } => {
            assert_eq!(messages.len(), 2);
            assert_eq!(
                messages[0].payload,
                Payload::EchoOk {
                    echo: "a".to_string()
                }
            );
            assert_eq!(
                messages[1].payload,
                Payload::EchoOk {
                    echo: "b".to_string()
                }
            );
            assert_eq!(messages[1].in_reply_to, Some(8));
        }
        other => panic!("expected a batch, got {:?}", other),
    }
}

// A broadcast forwarded to several targets keeps its original source on
// every copy, so downstream nodes forward by the source's entry.
#[test]
fn test_multi_target_forward_keeps_provenance() {
    let mut engine = full_engine("n0", &["n0", "n1", "n2", "n3", "c1"]);
    let topology = vec![
        (
            "n0".to_string(),
            vec!["n1".to_string(), "n2".to_string(), "n3".to_string()],
        ),
        ("n1".to_string(), vec!["n0".to_string()]),
        ("n2".to_string(), vec!["n0".to_string()]),
        ("n3".to_string(), vec!["n0".to_string()]),
    ];
    engine
        .step(packet("c1", "n0", msg(None, None, Payload::Topology { topology })))
        .unwrap();
    let out = engine
        .step(packet(
            "n1",
            "n0",
            msg(Some(1), None, Payload::Broadcast { message: 9 }),
        ))
        .unwrap();
    assert_eq!(out.len(), 2);
    let mut dests: Vec<&str> = out.iter().map(|p| p.dest.as_str()).collect();
    dests.sort();
    assert_eq!(dests, vec!["n2", "n3"]);
    for p in out.iter() {
        assert_eq!(p.src, "n1");
        assert_eq!(p.body.payload, Payload::Broadcast { message: 9 });
    }
}
