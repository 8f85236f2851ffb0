use gossip_glomers::echo::{EchoNode, EchoPayload};
use gossip_glomers::guids::{GenerateNode, GeneratePayload};
use gossip_glomers::init::Init;
use gossip_glomers::message::{Body, Message};
use gossip_glomers::node::Node;

fn init(me: &str) -> Init {
    Init { node_id: me.to_string(), node_ids: vec![me.to_string()] }
}

fn request<P>(payload: P, id: usize) -> Message<P> {
    Message {
        src: "c1".to_string(),
        dest: "n1".to_string(),
        body: Body { id: Some(id), in_reply_to: None, payload },
    }
}

#[test]
fn echo_returns_the_text() {
    let mut n = EchoNode::new(1, init("n1"));
    let reply = n.handle(request(EchoPayload::Echo { echo: "hello".to_string() }, 8)).unwrap();
    assert_eq!(reply.body.in_reply_to, Some(8));
    assert_eq!(reply.body.id, Some(1));
    match reply.body.payload {
        EchoPayload::EchoOk { echo } => assert_eq!(echo, "hello"),
        _ => panic!("echo was not answered with echo_ok"),
    }
    assert!(n.handle(request(EchoPayload::EchoOk { echo: "x".to_string() }, 9)).is_none());
    assert!(n.handle_gossip().is_empty());
}

#[test]
fn generated_ids_are_node_and_counter() {
    let mut n = GenerateNode::new(1, init("n7"));
    let mut ids = Vec::new();
    for k in 0..3 {
        let reply = n.handle(request(GeneratePayload::Generate, k)).unwrap();
        match reply.body.payload {
            GeneratePayload::GenerateOk { id } => ids.push(id),
            _ => panic!("generate was not answered with generate_ok"),
        }
    }
    assert_eq!(ids, vec!["n7-1", "n7-2", "n7-3"]);
    assert!(n.handle(request(GeneratePayload::GenerateOk { id: "x".to_string() }, 9)).is_none());
}
