use gossip_glomers::init::{handle_init, Init, InitError, InitPayload};
use gossip_glomers::message::{Body, Message};

fn init_message(id: Option<usize>) -> Message<InitPayload> {
    Message {
        src: "c1".to_string(),
        dest: "n1".to_string(),
        body: Body {
            id,
            in_reply_to: None,
            payload: InitPayload::Init(Init {
                node_id: "n1".to_string(),
                node_ids: vec!["n1".to_string(), "n2".to_string()],
            }),
        },
    }
}

#[test]
fn handshake_acknowledges_with_id_zero() {
    let (reply, next_id, init) = handle_init(init_message(Some(7))).unwrap();
    assert_eq!(reply.src, "n1");
    assert_eq!(reply.dest, "c1");
    assert_eq!(reply.body.id, Some(0));
    assert_eq!(reply.body.in_reply_to, Some(7));
    assert!(matches!(reply.body.payload, InitPayload::InitOk));
    assert_eq!(next_id, 1);
    assert_eq!(init.node_id, "n1");
    assert_eq!(init.node_ids, vec!["n1".to_string(), "n2".to_string()]);
}

#[test]
fn handshake_refuses_other_payloads() {
    let message = Message {
        src: "c1".to_string(),
        dest: "n1".to_string(),
        body: Body { id: Some(1), in_reply_to: None, payload: InitPayload::InitOk },
    };
    assert_eq!(handle_init(message).err(), Some(InitError::NotInit));
}

#[test]
fn into_reply_swaps_addresses_and_correlates() {
    let request = Message {
        src: "c1".to_string(),
        dest: "n1".to_string(),
        body: Body { id: Some(42), in_reply_to: None, payload: 5u32 },
    };
    let reply = request.into_reply(Some(3));
    assert_eq!(reply.src, "n1");
    assert_eq!(reply.dest, "c1");
    assert_eq!(reply.body.id, Some(3));
    assert_eq!(reply.body.in_reply_to, Some(42));
    assert_eq!(reply.body.payload, 5);
}
