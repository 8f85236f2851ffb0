use vstd::prelude::*;

use crate::init::Init;
use crate::message::{Body, Message};
use crate::node::Node;
use crate::assoc::{find_last, lookup};
use crate::topology::{lemma_peers, neighbour_set, peers, peers_of, Topology};

verus! {

/// The payloads of the broadcast protocol.
#[derive(Debug, Clone)]
pub enum BroadcastPayload {
    Broadcast { message: usize },
    BroadcastOk,
    Read,
    ReadOk { messages: Vec<usize> },
    Topology { topology: Topology },
    TopologyOk,
    Gossip { messages: Vec<usize> },
}

/// A node that disseminates broadcast values to the whole cluster by gossip.
pub struct BroadcastNode {
    /// The message id of the next reply.
    pub id: usize,
    pub node_id: String,
    /// The values known to have been broadcast, each once.
    pub messages: Vec<usize>,
    /// The nodes this one gossips to, each once; never itself.
    pub neighbours: Vec<String>,
}

/// The set a node knows after merging the gossiped values `incoming` into `known`.
pub open spec fn merge_values(known: Set<usize>, incoming: Seq<usize>) -> Set<usize> {
    known + incoming.to_set()
}

/// Whether `payload` is a gossip payload listing exactly `values`, in that order.
pub open spec fn gossips(payload: BroadcastPayload, values: Seq<usize>) -> bool {
    match payload {
        BroadcastPayload::Gossip { messages } => messages@ == values,
        _ => false,
    }
}

/// The set a node knows after merging the gossip payloads `payloads` in their order.
pub open spec fn merge_all(known: Set<usize>, payloads: Seq<Seq<usize>>) -> Set<usize>
    decreases payloads.len(),
{
    if payloads.len() == 0 {
        known
    } else {
        merge_values(merge_all(known, payloads.drop_last()), payloads.last())
    }
}

/// The union of the sets of `sets`.
pub open spec fn union_of(sets: Seq<Set<usize>>) -> Set<usize>
    decreases sets.len(),
{
    if sets.len() == 0 {
        Set::empty()
    } else {
        union_of(sets.drop_last()) + sets.last()
    }
}

/// Merging the same gossip payload twice leaves the values that merging it once gave.
pub proof fn lemma_merge_idempotent(known: Set<usize>, incoming: Seq<usize>)
    ensures
        merge_values(merge_values(known, incoming), incoming) == merge_values(known, incoming),
{
    assert(merge_values(merge_values(known, incoming), incoming) =~= merge_values(known, incoming));
}

/// Merging payload `a` then `b` gives the same values as merging `b` then `a`.
pub proof fn lemma_merge_commutative(known: Set<usize>, a: Seq<usize>, b: Seq<usize>)
    ensures
        merge_values(merge_values(known, a), b) == merge_values(merge_values(known, b), a),
{
    assert(merge_values(merge_values(known, a), b) =~= merge_values(merge_values(known, b), a));
}

proof fn lemma_merge_all_bounds(known: Set<usize>, payloads: Seq<Seq<usize>>)
    ensures
        known <= merge_all(known, payloads),
        forall|i: int| 0 <= i < payloads.len() ==> (#[trigger] payloads[i]).to_set() <= merge_all(known, payloads),
        forall|x: usize| #[trigger] merge_all(known, payloads).contains(x) ==> known.contains(x) || exists|i: int| 0 <= i < payloads.len() && (#[trigger] payloads[i]).to_set().contains(x),
    decreases payloads.len(),
{
    if payloads.len() > 0 {
        let rest = payloads.drop_last();
        lemma_merge_all_bounds(known, rest);
        assert forall|i: int| 0 <= i < payloads.len() implies (#[trigger] payloads[i]).to_set() <= merge_all(known, payloads) by {
            if i < rest.len() {
                assert(payloads[i] == rest[i]);
            }
        }
        assert forall|x: usize| #[trigger] merge_all(known, payloads).contains(x) implies known.contains(x) || exists|i: int| 0 <= i < payloads.len() && (#[trigger] payloads[i]).to_set().contains(x) by {
            if merge_all(known, rest).contains(x) {
                if !known.contains(x) {
                    let i = choose|i: int| 0 <= i < rest.len() && (#[trigger] rest[i]).to_set().contains(x);
                    assert(payloads[i] == rest[i]);
                }
            } else {
                assert(payloads[payloads.len() - 1].to_set().contains(x));
            }
        }
    }
}

proof fn lemma_union_of_member(sets: Seq<Set<usize>>, x: usize)
    requires
        union_of(sets).contains(x),
    ensures
        exists|j: int| 0 <= j < sets.len() && (#[trigger] sets[j]).contains(x),
    decreases sets.len(),
{
    let rest = sets.drop_last();
    if union_of(rest).contains(x) {
        lemma_union_of_member(rest, x);
        let j = choose|j: int| 0 <= j < rest.len() && (#[trigger] rest[j]).contains(x);
        assert(sets[j] == rest[j]);
    } else {
        assert(sets[sets.len() - 1].contains(x));
    }
}

/// Convergence: values spread only by gossip, so every set a node knows, and every payload it
/// receives, lies within the union of the values the nodes were given. Once a node has merged,
/// in any order and with any repetitions or other losses, at least one payload covering each
/// node's values, it knows exactly that union.
pub proof fn lemma_convergence(known: Set<usize>, payloads: Seq<Seq<usize>>, sets: Seq<Set<usize>>)
    requires
        known <= union_of(sets),
        forall|i: int| 0 <= i < payloads.len() ==> (#[trigger] payloads[i]).to_set() <= union_of(sets),
        forall|j: int| 0 <= j < sets.len() ==> exists|i: int| 0 <= i < payloads.len() && #[trigger] sets[j] <= (#[trigger] payloads[i]).to_set(),
    ensures
        merge_all(known, payloads) == union_of(sets),
{
    lemma_merge_all_bounds(known, payloads);
    assert forall|x: usize| union_of(sets).contains(x) implies #[trigger] merge_all(known, payloads).contains(x) by {
        lemma_union_of_member(sets, x);
        let j = choose|j: int| 0 <= j < sets.len() && (#[trigger] sets[j]).contains(x);
        let i = choose|i: int| 0 <= i < payloads.len() && #[trigger] sets[j] <= (#[trigger] payloads[i]).to_set();
        assert(payloads[i].to_set() <= merge_all(known, payloads));
    }
    assert forall|x: usize| #[trigger] merge_all(known, payloads).contains(x) implies union_of(sets).contains(x) by {
        if !known.contains(x) {
            let i = choose|i: int| 0 <= i < payloads.len() && (#[trigger] payloads[i]).to_set().contains(x);
        }
    }
    assert(merge_all(known, payloads) =~= union_of(sets));
}

impl BroadcastNode {
    /// The set of values the node knows.
    pub open spec fn values(&self) -> Set<usize> {
        self.messages@.to_set()
    }
}

/// Whether `x` is among the values of `v`.
fn has_value(v: &Vec<usize>, x: usize) -> (r: bool)
    ensures
        r == v@.contains(x),
{
    let mut i: usize = 0;
    while i < v.len()
        invariant
            i <= v.len(),
            forall|j: int| 0 <= j < i ==> v@[j] != x,
        decreases v.len() - i,
    {
        if v[i] == x {
            return true;
        }
        i += 1;
    }
    false
}

/// Adds `x` to the values of `v` unless it is there already.
fn insert_value(v: &mut Vec<usize>, x: usize)
    requires
        old(v)@.no_duplicates(),
    ensures
        final(v)@.no_duplicates(),
        final(v)@.to_set() == old(v)@.to_set().insert(x),
{
    if !has_value(v, x) {
        proof {
            old(v)@.lemma_push_to_set_commute(x);
        }
        v.push(x);
    } else {
        assert(old(v)@.to_set().insert(x) =~= old(v)@.to_set());
    }
}

/// Adds to `v` every value of `incoming` that it does not hold yet.
fn merge_into(v: &mut Vec<usize>, incoming: &Vec<usize>)
    requires
        old(v)@.no_duplicates(),
    ensures
        final(v)@.no_duplicates(),
        final(v)@.to_set() == merge_values(old(v)@.to_set(), incoming@),
{
    let mut i: usize = 0;
    while i < incoming.len()
        invariant
            i <= incoming.len(),
            v@.no_duplicates(),
            v@.to_set() == merge_values(old(v)@.to_set(), incoming@.take(i as int)),
        decreases incoming.len() - i,
    {
        insert_value(v, incoming[i]);
        proof {
            assert(incoming@.take(i + 1) =~= incoming@.take(i as int).push(incoming@[i as int]));
            incoming@.take(i as int).lemma_push_to_set_commute(incoming@[i as int]);
            assert(v@.to_set() =~= merge_values(old(v)@.to_set(), incoming@.take(i + 1)));
        }
        i += 1;
    }
    assert(incoming@.take(i as int) =~= incoming@);
}

/// A copy of the values of `v`.
fn copy_values(v: &Vec<usize>) -> (r: Vec<usize>)
    ensures
        r@ == v@,
{
    let mut r: Vec<usize> = Vec::new();
    let mut i: usize = 0;
    while i < v.len()
        invariant
            i <= v.len(),
            r@ == v@.take(i as int),
        decreases v.len() - i,
    {
        r.push(v[i]);
        i += 1;
        assert(r@ =~= v@.take(i as int));
    }
    assert(v@.take(i as int) =~= v@);
    r
}

impl Node<BroadcastPayload> for BroadcastNode {
    open spec fn wf(&self) -> bool {
        &&& self.messages@.no_duplicates()
        &&& neighbour_set(self.neighbours@, self.node_id@)
    }

    open spec fn next_id(&self) -> usize {
        self.id
    }

    fn next_message_id(&self) -> (r: usize) {
        self.id
    }

    /// Starts with no known values, gossiping to every other node of the roster.
    fn new(id: usize, init: Init) -> (r: Self)
        ensures
            r.node_id == init.node_id,
            r.values() == Set::<usize>::empty(),
            r.neighbours@ == peers(init.node_ids@, init.node_id@),
    {
        let neighbours = peers_of(&init.node_ids, &init.node_id);
        proof {
            lemma_peers(init.node_ids@, init.node_id@);
        }
        let r = Self { id, node_id: init.node_id, messages: Vec::new(), neighbours };
        assert(r.values() =~= Set::<usize>::empty());
        r
    }

    open spec fn replies(&self, input: Message<BroadcastPayload>) -> bool {
        match input.body.payload {
            BroadcastPayload::Broadcast { .. } | BroadcastPayload::Read | BroadcastPayload::Topology { .. } => true,
            _ => false,
        }
    }

    /// A broadcast adds its value; a read answers with the known values; a topology replaces
    /// the neighbours with those it lists for this node, this node left out; gossip is merged
    /// and not answered; acknowledgements are ignored.
    open spec fn handled(
        before: Self,
        input: Message<BroadcastPayload>,
        after: Self,
        r: Option<Message<BroadcastPayload>>,
    ) -> bool {
        &&& after.node_id == before.node_id
        &&& match input.body.payload {
            BroadcastPayload::Broadcast { message } => {
                &&& after.values() == before.values().insert(message)
                &&& after.neighbours == before.neighbours
                &&& match r {
                    Some(m) => m.body.payload is BroadcastOk,
                    None => false,
                }
            },
            BroadcastPayload::Read => {
                &&& after.messages == before.messages
                &&& after.neighbours == before.neighbours
                &&& match r {
                    Some(m) => match m.body.payload {
                        BroadcastPayload::ReadOk { messages } => messages@ == before.messages@,
                        _ => false,
                    },
                    None => false,
                }
            },
            BroadcastPayload::Topology { topology } => {
                &&& after.messages == before.messages
                &&& after.neighbours@ == match lookup(topology.neighbours@, before.node_id@) {
                    Some(listed) => peers(listed@, before.node_id@),
                    None => before.neighbours@,
                }
                &&& match r {
                    Some(m) => m.body.payload is TopologyOk,
                    None => false,
                }
            },
            BroadcastPayload::Gossip { messages } => {
                &&& r is None
                &&& after.values() == merge_values(before.values(), messages@)
                &&& after.neighbours == before.neighbours
                &&& after.id == before.id
            },
            _ => r is None && after == before,
        }
    }

    /// One gossip message to each neighbour, in order, listing every known value.
    open spec fn gossips_as(&self, out: Seq<Message<BroadcastPayload>>) -> bool {
        &&& out.len() == self.neighbours.len()
        &&& forall|i: int|
            0 <= i < out.len() ==> {
                &&& (#[trigger] out[i]).src == self.node_id
                &&& out[i].dest == self.neighbours@[i]
                &&& gossips(out[i].body.payload, self.messages@)
            }
    }

    fn handle(&mut self, input: Message<BroadcastPayload>) -> (r: Option<Message<BroadcastPayload>>)
    {
        let id = self.id;
        let Message { src, dest, body } = input.into_reply(Some(id));
        match body.payload {
            BroadcastPayload::Broadcast { message } => {
                insert_value(&mut self.messages, message);
                self.id = id + 1;
                let payload = BroadcastPayload::BroadcastOk;
                Some(Message { src, dest, body: Body { id: body.id, in_reply_to: body.in_reply_to, payload } })
            },
            BroadcastPayload::Read => {
                let payload = BroadcastPayload::ReadOk { messages: copy_values(&self.messages) };
                self.id = id + 1;
                Some(Message { src, dest, body: Body { id: body.id, in_reply_to: body.in_reply_to, payload } })
            },
            BroadcastPayload::Topology { topology } => {
                if let Some(k) = find_last(&topology.neighbours, &self.node_id) {
                    self.neighbours = peers_of(&topology.neighbours[k].1, &self.node_id);
                    proof {
                        lemma_peers(topology.neighbours@[k as int].1@, self.node_id@);
                    }
                }
                self.id = id + 1;
                let payload = BroadcastPayload::TopologyOk;
                Some(Message { src, dest, body: Body { id: body.id, in_reply_to: body.in_reply_to, payload } })
            },
            BroadcastPayload::Gossip { messages } => {
                merge_into(&mut self.messages, &messages);
                None
            },
            BroadcastPayload::BroadcastOk
            | BroadcastPayload::ReadOk { .. }
            | BroadcastPayload::TopologyOk => None,
        }
    }

    fn handle_gossip(&self) -> (r: Vec<Message<BroadcastPayload>>)
    {
        let mut out: Vec<Message<BroadcastPayload>> = Vec::new();
        let mut i: usize = 0;
        while i < self.neighbours.len()
            invariant
                i <= self.neighbours.len(),
                out.len() == i,
                forall|j: int|
                    0 <= j < i ==> {
                        &&& (#[trigger] out[j]).src == self.node_id
                        &&& out[j].dest == self.neighbours@[j]
                        &&& out[j].body.id is None
                        &&& out[j].body.in_reply_to is None
                        &&& gossips(out[j].body.payload, self.messages@)
                    },
            decreases self.neighbours.len() - i,
        {
            let payload = BroadcastPayload::Gossip { messages: copy_values(&self.messages) };
            let message = Message {
                src: self.node_id.clone(),
                dest: self.neighbours[i].clone(),
                body: Body { id: None, in_reply_to: None, payload },
            };
            out.push(message);
            i += 1;
        }
        out
    }
}

/// Delivering the same gossip message twice leaves a node as delivering it once did: the same
/// values, neighbours and next message id, and no reply either time.
pub proof fn lemma_gossip_delivered_twice(
    s: BroadcastNode,
    g: Message<BroadcastPayload>,
    s1: BroadcastNode,
    r1: Option<Message<BroadcastPayload>>,
    s2: BroadcastNode,
    r2: Option<Message<BroadcastPayload>>,
)
    requires
        g.body.payload is Gossip,
        BroadcastNode::handled(s, g, s1, r1),
        BroadcastNode::handled(s1, g, s2, r2),
    ensures
        r1 is None,
        r2 is None,
        s2.values() == s1.values(),
        s2.neighbours == s1.neighbours,
        s2.id == s1.id,
{
    if let BroadcastPayload::Gossip { messages } = g.body.payload {
        lemma_merge_idempotent(s.values(), messages@);
    }
}

/// Two gossip messages delivered in either order leave a node with the same values,
/// neighbours and next message id.
pub proof fn lemma_gossip_order(
    s: BroadcastNode,
    ga: Message<BroadcastPayload>,
    gb: Message<BroadcastPayload>,
    sa: BroadcastNode,
    ra: Option<Message<BroadcastPayload>>,
    sab: BroadcastNode,
    rab: Option<Message<BroadcastPayload>>,
    sb: BroadcastNode,
    rb: Option<Message<BroadcastPayload>>,
    sba: BroadcastNode,
    rba: Option<Message<BroadcastPayload>>,
)
    requires
        ga.body.payload is Gossip,
        gb.body.payload is Gossip,
        BroadcastNode::handled(s, ga, sa, ra),
        BroadcastNode::handled(sa, gb, sab, rab),
        BroadcastNode::handled(s, gb, sb, rb),
        BroadcastNode::handled(sb, ga, sba, rba),
    ensures
        sab.values() == sba.values(),
        sab.neighbours == sba.neighbours,
        sab.id == sba.id,
{
    if let BroadcastPayload::Gossip { messages: a } = ga.body.payload {
        if let BroadcastPayload::Gossip { messages: b } = gb.body.payload {
            lemma_merge_commutative(s.values(), a@, b@);
        }
    }
}

/// Only a topology message changes whom a node gossips to.
pub proof fn lemma_neighbours_kept(
    s: BroadcastNode,
    m: Message<BroadcastPayload>,
    s1: BroadcastNode,
    r: Option<Message<BroadcastPayload>>,
)
    requires
        !(m.body.payload is Topology),
        BroadcastNode::handled(s, m, s1, r),
    ensures
        s1.neighbours == s.neighbours,
{
}

} // verus!
