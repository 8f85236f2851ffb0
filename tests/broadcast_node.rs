use gossip_glomers::broadcast::{BroadcastNode, BroadcastPayload};
use gossip_glomers::init::Init;
use gossip_glomers::message::{Body, Message};
use gossip_glomers::node::{step, Event, Node};
use gossip_glomers::topology::Topology;

fn node(me: &str, roster: &[&str]) -> BroadcastNode {
    BroadcastNode::new(
        1,
        Init {
            node_id: me.to_string(),
            node_ids: roster.iter().map(|s| s.to_string()).collect(),
        },
    )
}

fn request(to: &str, id: Option<usize>, payload: BroadcastPayload) -> Message<BroadcastPayload> {
    Message {
        src: "c1".to_string(),
        dest: to.to_string(),
        body: Body { id, in_reply_to: None, payload },
    }
}

fn read(n: &mut BroadcastNode) -> Vec<usize> {
    let me = n.node_id.clone();
    let reply = n.handle(request(&me, Some(99), BroadcastPayload::Read)).unwrap();
    match reply.body.payload {
        BroadcastPayload::ReadOk { mut messages } => {
            messages.sort();
            messages
        }
        _ => panic!("read was not answered with read_ok"),
    }
}

fn deliver_gossip(from: &BroadcastNode, to: &mut BroadcastNode) {
    for message in from.handle_gossip() {
        if message.dest == to.node_id {
            assert!(to.handle(message).is_none());
        }
    }
}

#[test]
fn broadcast_then_read() {
    let mut a = node("a", &["a", "b"]);
    let reply = a.handle(request("a", Some(1), BroadcastPayload::Broadcast { message: 5 })).unwrap();
    assert!(matches!(reply.body.payload, BroadcastPayload::BroadcastOk));
    assert_eq!(reply.body.in_reply_to, Some(1));
    assert_eq!(reply.body.id, Some(1));
    assert_eq!(read(&mut a), vec![5]);
}

#[test]
fn gossip_spreads_disjoint_values() {
    let mut a = node("a", &["a", "b"]);
    let mut b = node("b", &["a", "b"]);
    a.handle(request("a", Some(1), BroadcastPayload::Broadcast { message: 5 }));
    b.handle(request("b", Some(1), BroadcastPayload::Broadcast { message: 9 }));
    deliver_gossip(&a, &mut b);
    deliver_gossip(&b, &mut a);
    assert_eq!(read(&mut a), vec![5, 9]);
    assert_eq!(read(&mut b), vec![5, 9]);
}

#[test]
fn gossip_of_known_value_changes_nothing() {
    let mut a = node("a", &["a", "b"]);
    a.handle(request("a", Some(1), BroadcastPayload::Broadcast { message: 5 }));
    let before = read(&mut a);
    let gossip = Message {
        src: "b".to_string(),
        dest: "a".to_string(),
        body: Body { id: None, in_reply_to: None, payload: BroadcastPayload::Gossip { messages: vec![5] } },
    };
    assert!(a.handle(gossip).is_none());
    assert_eq!(read(&mut a), before);
    assert_eq!(before.len(), 1);
}

#[test]
fn merging_twice_equals_merging_once() {
    let mut a = node("a", &["a"]);
    let gossip = || Message {
        src: "b".to_string(),
        dest: "a".to_string(),
        body: Body { id: None, in_reply_to: None, payload: BroadcastPayload::Gossip { messages: vec![3, 4, 3] } },
    };
    a.handle(gossip());
    let once = read(&mut a);
    a.handle(gossip());
    assert_eq!(read(&mut a), once);
    assert_eq!(once, vec![3, 4]);
}

#[test]
fn merge_order_does_not_matter() {
    let gossip = |values: Vec<usize>| Message {
        src: "x".to_string(),
        dest: "a".to_string(),
        body: Body { id: None, in_reply_to: None, payload: BroadcastPayload::Gossip { messages: values } },
    };
    let mut first = node("a", &["a"]);
    first.handle(gossip(vec![1, 2]));
    first.handle(gossip(vec![2, 3]));
    let mut second = node("a", &["a"]);
    second.handle(gossip(vec![2, 3]));
    second.handle(gossip(vec![1, 2]));
    assert_eq!(read(&mut first), read(&mut second));
    assert_eq!(read(&mut first), vec![1, 2, 3]);
}

#[test]
fn three_nodes_converge_through_a_line() {
    let roster = ["a", "b", "c"];
    let mut a = node("a", &roster);
    let mut b = node("b", &roster);
    let mut c = node("c", &roster);
    let topology = Topology {
        neighbours: vec![
            ("a".to_string(), vec!["b".to_string()]),
            ("b".to_string(), vec!["a".to_string(), "c".to_string()]),
            ("c".to_string(), vec!["b".to_string()]),
        ],
    };
    for n in [&mut a, &mut b, &mut c] {
        let me = n.node_id.clone();
        n.handle(request(&me, Some(1), BroadcastPayload::Topology { topology: topology.clone() }));
    }
    a.handle(request("a", Some(2), BroadcastPayload::Broadcast { message: 1 }));
    c.handle(request("c", Some(2), BroadcastPayload::Broadcast { message: 3 }));
    for _ in 0..2 {
        deliver_gossip(&a, &mut b);
        deliver_gossip(&c, &mut b);
        deliver_gossip(&b, &mut a);
        deliver_gossip(&b, &mut c);
    }
    assert_eq!(read(&mut a), vec![1, 3]);
    assert_eq!(read(&mut b), vec![1, 3]);
    assert_eq!(read(&mut c), vec![1, 3]);
}

#[test]
fn topology_restricts_fan_out_and_drops_self() {
    let mut a = node("a", &["a", "b", "c", "d"]);
    let initial: Vec<String> = a.handle_gossip().into_iter().map(|m| m.dest).collect();
    assert_eq!(initial, vec!["b", "c", "d"]);
    let topology = Topology {
        neighbours: vec![
            ("a".to_string(), vec!["a".to_string(), "c".to_string()]),
            ("b".to_string(), vec!["d".to_string()]),
        ],
    };
    let reply = a.handle(request("a", Some(4), BroadcastPayload::Topology { topology })).unwrap();
    assert!(matches!(reply.body.payload, BroadcastPayload::TopologyOk));
    let dests: Vec<String> = a.handle_gossip().into_iter().map(|m| m.dest).collect();
    assert_eq!(dests, vec!["c"]);
    a.handle(request("a", Some(5), BroadcastPayload::Broadcast { message: 8 }));
    a.handle(request("a", Some(6), BroadcastPayload::Read));
    let dests: Vec<String> = a.handle_gossip().into_iter().map(|m| m.dest).collect();
    assert_eq!(dests, vec!["c"]);
}

#[test]
fn topology_without_entry_keeps_neighbours() {
    let mut a = node("a", &["a", "b"]);
    let topology = Topology { neighbours: vec![("b".to_string(), vec!["a".to_string()])] };
    a.handle(request("a", Some(4), BroadcastPayload::Topology { topology }));
    let dests: Vec<String> = a.handle_gossip().into_iter().map(|m| m.dest).collect();
    assert_eq!(dests, vec!["b"]);
}

#[test]
fn replies_correlate_and_gossip_is_not_answered() {
    let mut a = node("a", &["a", "b"]);
    let r1 = a.handle(request("a", Some(10), BroadcastPayload::Broadcast { message: 1 })).unwrap();
    let r2 = a.handle(request("a", Some(11), BroadcastPayload::Read)).unwrap();
    assert_eq!((r1.body.in_reply_to, r1.body.id), (Some(10), Some(1)));
    assert_eq!((r2.body.in_reply_to, r2.body.id), (Some(11), Some(2)));
    assert_eq!(r2.dest, "c1");
    let gossip = Message {
        src: "b".to_string(),
        dest: "a".to_string(),
        body: Body { id: None, in_reply_to: None, payload: BroadcastPayload::Gossip { messages: vec![2] } },
    };
    assert!(a.handle(gossip).is_none());
    assert_eq!(a.id, 3);
    assert!(a.handle(request("a", Some(12), BroadcastPayload::BroadcastOk)).is_none());
    assert_eq!(a.id, 3);
    for g in a.handle_gossip() {
        assert_eq!(g.body.id, None);
        assert_eq!(g.body.in_reply_to, None);
        match g.body.payload {
            BroadcastPayload::Gossip { mut messages } => {
                messages.sort();
                assert_eq!(messages, vec![1, 2]);
            }
            _ => panic!("gossip tick produced a non-gossip payload"),
        }
    }
}

#[test]
fn step_dispatches_messages_and_ticks() {
    let mut a = node("a", &["a", "b"]);
    let out = step(&mut a, Event::Message(request("a", Some(3), BroadcastPayload::Broadcast { message: 7 })));
    assert_eq!(out.len(), 1);
    assert_eq!(out[0].body.in_reply_to, Some(3));
    let out = step(&mut a, Event::Gossip);
    assert_eq!(out.len(), 1);
    assert_eq!(out[0].dest, "b");
    assert_eq!(a.id, 2);
}

#[test]
fn topology_listing_a_neighbour_twice_gossips_to_it_once() {
    let mut a = node("a", &["a", "b", "c"]);
    let topology = Topology {
        neighbours: vec![(
            "a".to_string(),
            vec!["b".to_string(), "b".to_string(), "a".to_string(), "c".to_string(), "b".to_string()],
        )],
    };
    a.handle(request("a", Some(1), BroadcastPayload::Topology { topology }));
    let dests: Vec<String> = a.handle_gossip().into_iter().map(|m| m.dest).collect();
    assert_eq!(dests, vec!["b", "c"]);
}

#[test]
fn gossip_payload_lists_each_value_once() {
    let mut a = node("a", &["a", "b"]);
    a.handle(request("a", Some(1), BroadcastPayload::Broadcast { message: 9 }));
    a.handle(request("a", Some(2), BroadcastPayload::Broadcast { message: 5 }));
    a.handle(request("a", Some(3), BroadcastPayload::Broadcast { message: 9 }));
    let out = a.handle_gossip();
    assert_eq!(out.len(), 1);
    match &out[0].body.payload {
        BroadcastPayload::Gossip { messages } => assert_eq!(messages, &vec![9, 5]),
        _ => panic!("gossip tick produced a non-gossip payload"),
    }
}
