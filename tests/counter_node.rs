use gossip_glomers::counter::{GCounterNode, GCounterPayload};
use gossip_glomers::init::Init;
use gossip_glomers::message::{Body, Message};
use gossip_glomers::node::Node;

fn node(me: &str, roster: &[&str]) -> GCounterNode {
    GCounterNode::new(
        1,
        Init {
            node_id: me.to_string(),
            node_ids: roster.iter().map(|s| s.to_string()).collect(),
        },
    )
}

fn request(to: &str, payload: GCounterPayload) -> Message<GCounterPayload> {
    Message {
        src: "c1".to_string(),
        dest: to.to_string(),
        body: Body { id: Some(5), in_reply_to: None, payload },
    }
}

fn read(n: &mut GCounterNode) -> usize {
    let me = n.node_id.clone();
    match n.handle(request(&me, GCounterPayload::Read)).unwrap().body.payload {
        GCounterPayload::ReadOk { value } => value,
        _ => panic!("read was not answered with read_ok"),
    }
}

fn gossip(from: &str, to: &str, values: &[(&str, usize)]) -> Message<GCounterPayload> {
    Message {
        src: from.to_string(),
        dest: to.to_string(),
        body: Body {
            id: None,
            in_reply_to: None,
            payload: GCounterPayload::Gossip {
                values: values.iter().map(|(k, v)| (k.to_string(), *v)).collect(),
            },
        },
    }
}

#[test]
fn adds_sum_and_spread() {
    let mut a = node("a", &["a", "b"]);
    let mut b = node("b", &["a", "b"]);
    let reply = a.handle(request("a", GCounterPayload::Add { delta: 3 })).unwrap();
    assert!(matches!(reply.body.payload, GCounterPayload::AddOk));
    a.handle(request("a", GCounterPayload::Add { delta: 4 }));
    assert_eq!(read(&mut a), 7);
    let out = a.handle_gossip();
    assert_eq!(out.len(), 1);
    assert_eq!(out[0].dest, "b");
    for m in out {
        assert!(b.handle(m).is_none());
    }
    assert_eq!(read(&mut b), 7);
    b.handle(request("b", GCounterPayload::Add { delta: 2 }));
    assert_eq!(read(&mut b), 9);
}

#[test]
fn merge_takes_maxima_and_keeps_own_count() {
    let mut a = node("a", &["a", "b", "c"]);
    a.handle(request("a", GCounterPayload::Add { delta: 10 }));
    a.handle(gossip("b", "a", &[("a", 50), ("b", 4), ("c", 2)]));
    assert_eq!(read(&mut a), 16);
    a.handle(gossip("c", "a", &[("b", 3), ("c", 6), ("d", 1)]));
    assert_eq!(read(&mut a), 21);
}

#[test]
fn merging_counts_twice_equals_once() {
    let mut a = node("a", &["a", "b"]);
    a.handle(gossip("b", "a", &[("b", 4)]));
    let once = read(&mut a);
    a.handle(gossip("b", "a", &[("b", 4)]));
    assert_eq!(read(&mut a), once);
    assert_eq!(once, 4);
}

#[test]
fn counter_merge_order_does_not_matter() {
    let mut first = node("a", &["a", "b", "c"]);
    first.handle(gossip("b", "a", &[("b", 4), ("c", 1)]));
    first.handle(gossip("c", "a", &[("b", 2), ("c", 5)]));
    let mut second = node("a", &["a", "b", "c"]);
    second.handle(gossip("c", "a", &[("b", 2), ("c", 5)]));
    second.handle(gossip("b", "a", &[("b", 4), ("c", 1)]));
    assert_eq!(read(&mut first), read(&mut second));
    assert_eq!(read(&mut first), 9);
}

#[test]
fn reported_total_never_decreases() {
    let mut a = node("a", &["a", "b"]);
    let mut last = read(&mut a);
    let steps = vec![
        request("a", GCounterPayload::Add { delta: 2 }),
        gossip("b", "a", &[("b", 5)]),
        gossip("b", "a", &[("b", 1)]),
        request("a", GCounterPayload::Add { delta: 0 }),
        gossip("b", "a", &[("a", 0), ("b", 7)]),
    ];
    for m in steps {
        a.handle(m);
        let now = read(&mut a);
        assert!(now >= last);
        last = now;
    }
    assert_eq!(last, 9);
}

#[test]
fn counts_saturate_at_the_largest_usize() {
    let mut a = node("a", &["a", "b"]);
    a.handle(gossip("b", "a", &[("b", usize::MAX - 1)]));
    a.handle(request("a", GCounterPayload::Add { delta: 5 }));
    assert_eq!(read(&mut a), usize::MAX);
}

#[test]
fn counter_topology_is_acknowledged() {
    let mut a = node("a", &["a"]);
    let topology = gossip_glomers::topology::Topology { neighbours: vec![] };
    let reply = a.handle(request("a", GCounterPayload::Topology { topology })).unwrap();
    assert!(matches!(reply.body.payload, GCounterPayload::TopologyOk));
    assert_eq!(reply.body.in_reply_to, Some(5));
    assert!(a.handle(request("a", GCounterPayload::AddOk)).is_none());
}

#[test]
fn counter_gossips_only_to_the_roster() {
    let mut a = node("a", &["a", "b", "b"]);
    a.handle(gossip("z", "a", &[("z", 4)]));
    assert_eq!(read(&mut a), 4);
    let dests: Vec<String> = a.handle_gossip().into_iter().map(|m| m.dest).collect();
    assert_eq!(dests, vec!["b"]);
}
