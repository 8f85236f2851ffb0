use gossip_glomers::init::Init;
use gossip_glomers::kafka::{KafkaNode, KafkaPayload};
use gossip_glomers::message::{Body, Message};
use gossip_glomers::node::Node;

fn node() -> KafkaNode {
    KafkaNode::new(1, Init { node_id: "n1".to_string(), node_ids: vec!["n1".to_string()] })
}

fn request(id: usize, payload: KafkaPayload) -> Message<KafkaPayload> {
    Message {
        src: "c1".to_string(),
        dest: "n1".to_string(),
        body: Body { id: Some(id), in_reply_to: None, payload },
    }
}

fn send(n: &mut KafkaNode, key: &str, msg: usize) -> usize {
    let reply = n.handle(request(1, KafkaPayload::Send { key: key.to_string(), msg })).unwrap();
    match reply.body.payload {
        KafkaPayload::SendOk { offset } => offset,
        _ => panic!("send was not answered with send_ok"),
    }
}

#[test]
fn sends_get_consecutive_offsets_per_key() {
    let mut n = node();
    assert_eq!(send(&mut n, "k1", 10), 1);
    assert_eq!(send(&mut n, "k1", 11), 2);
    assert_eq!(send(&mut n, "k2", 20), 1);
    assert_eq!(send(&mut n, "k1", 12), 3);
}

#[test]
fn poll_returns_entries_from_offset() {
    let mut n = node();
    send(&mut n, "k1", 10);
    send(&mut n, "k1", 11);
    send(&mut n, "k1", 12);
    send(&mut n, "k2", 20);
    let offsets = vec![("k1".to_string(), 2), ("k2".to_string(), 5), ("k3".to_string(), 0)];
    let reply = n.handle(request(7, KafkaPayload::Poll { offsets })).unwrap();
    assert_eq!(reply.body.in_reply_to, Some(7));
    match reply.body.payload {
        KafkaPayload::PollOk { msgs } => {
            assert_eq!(
                msgs,
                vec![
                    ("k1".to_string(), vec![(2, 11), (3, 12)]),
                    ("k2".to_string(), vec![]),
                    ("k3".to_string(), vec![]),
                ]
            );
        }
        _ => panic!("poll was not answered with poll_ok"),
    }
}

#[test]
fn committed_offsets_are_listed() {
    let mut n = node();
    let offsets = vec![("k1".to_string(), 3), ("k2".to_string(), 1)];
    let reply = n.handle(request(2, KafkaPayload::CommitOffsets { offsets })).unwrap();
    assert!(matches!(reply.body.payload, KafkaPayload::CommitOffsetsOk));
    let offsets = vec![("k1".to_string(), 4)];
    n.handle(request(3, KafkaPayload::CommitOffsets { offsets }));
    let keys = vec!["k1".to_string(), "k2".to_string(), "k9".to_string()];
    let reply = n.handle(request(4, KafkaPayload::ListCommittedOffsets { keys })).unwrap();
    match reply.body.payload {
        KafkaPayload::ListCommittedOffsetsOk { offsets } => assert_eq!(
            offsets,
            vec![("k1".to_string(), 4), ("k2".to_string(), 1), ("k9".to_string(), 0)]
        ),
        _ => panic!("listing was not answered with list_committed_offsets_ok"),
    }
    assert!(n.handle(request(5, KafkaPayload::CommitOffsetsOk)).is_none());
    assert!(n.handle_gossip().is_empty());
}
