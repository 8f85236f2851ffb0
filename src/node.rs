use vstd::prelude::*;

use crate::init::Init;
use crate::message::Message;

verus! {

/// A protocol's state machine: built once from the handshake, then driven by inbound messages
/// and by gossip ticks.
pub trait Node<Payload>: Sized {
    /// The state's own invariant.
    spec fn wf(&self) -> bool;

    /// The message id the node gives its next reply.
    spec fn next_id(&self) -> usize;

    /// Whether the node, in this state, answers `input`.
    spec fn replies(&self, input: Message<Payload>) -> bool;

    /// What the protocol says of one message: handling `input` in state `before` may leave
    /// state `after` and give the reply `r`.
    spec fn handled(
        before: Self,
        input: Message<Payload>,
        after: Self,
        r: Option<Message<Payload>>,
    ) -> bool;

    /// What the protocol says of a gossip tick: in this state a tick may send `out`.
    spec fn gossips_as(&self, out: Seq<Message<Payload>>) -> bool;

    /// The message id the node gives its next reply.
    fn next_message_id(&self) -> (r: usize)
        ensures
            r == self.next_id(),
    ;

    /// Builds the node from the id of its first outgoing message and the handshake's data.
    fn new(id: usize, init: Init) -> (r: Self)
        ensures
            r.wf(),
            r.next_id() == id,
    ;

    /// Handles one inbound message, returning the reply if the message calls for one. A reply
    /// answers `input` (addresses swapped, `in_reply_to` set to the request's id) and carries
    /// the node's next message id, which is then used up.
    fn handle(&mut self, input: Message<Payload>) -> (r: Option<Message<Payload>>)
        requires
            old(self).wf(),
            old(self).replies(input) ==> old(self).next_id() < usize::MAX,
        ensures
            final(self).wf(),
            r is Some == old(self).replies(input),
            Self::handled(*old(self), input, *final(self), r),
            match r {
                Some(reply) => {
                    &&& reply.src == input.dest
                    &&& reply.dest == input.src
                    &&& reply.body.in_reply_to == input.body.id
                    &&& reply.body.id == Some(old(self).next_id())
                    &&& final(self).next_id() == old(self).next_id() + 1
                },
                None => final(self).next_id() == old(self).next_id(),
            },
    ;

    /// The anti-entropy messages for one gossip tick. They carry no id and answer nothing.
    fn handle_gossip(&self) -> (r: Vec<Message<Payload>>)
        requires
            self.wf(),
        ensures
            self.gossips_as(r@),
            forall|i: int|
                0 <= i < r.len() ==> (#[trigger] r[i]).body.id is None && r[i].body.in_reply_to
                    is None,
    ;
}

/// One event of the scheduler: an inbound message, or a tick of the gossip timer.
#[derive(Debug, Clone)]
pub enum Event<Payload> {
    Message(Message<Payload>),
    Gossip,
}

/// Feeds one event to the node and returns what must be sent: for a message, the reply that
/// `handle` gives, if any; for a tick, the gossip that `handle_gossip` gives, the node unchanged.
pub fn step<Payload, N: Node<Payload>>(node: &mut N, event: Event<Payload>) -> (out: Vec<
    Message<Payload>,
>)
    requires
        old(node).wf(),
        match event {
            Event::Message(m) => old(node).replies(m) ==> old(node).next_id() < usize::MAX,
            Event::Gossip => true,
        },
    ensures
        final(node).wf(),
        match event {
            Event::Message(m) => {
                &&& out.len() <= 1
                &&& (out.len() == 1) == old(node).replies(m)
                &&& N::handled(
                    *old(node),
                    m,
                    *final(node),
                    if out.len() == 1 {
                        Some(out[0])
                    } else {
                        None
                    },
                )
                &&& final(node).next_id() == old(node).next_id() + out.len()
                &&& forall|i: int|
                    0 <= i < out.len() ==> (#[trigger] out[i]).body.in_reply_to == m.body.id
                        && out[i].body.id == Some(old(node).next_id()) && out[i].src == m.dest
                        && out[i].dest == m.src
            },
            Event::Gossip => {
                &&& *final(node) == *old(node)
                &&& old(node).gossips_as(out@)
                &&& forall|i: int|
                    0 <= i < out.len() ==> (#[trigger] out[i]).body.id is None
                        && out[i].body.in_reply_to is None
            },
        },
{
    match event {
        Event::Message(m) => {
            let mut out = Vec::new();
            if let Some(reply) = node.handle(m) {
                out.push(reply);
            }
            out
        },
        Event::Gossip => node.handle_gossip(),
    }
}

} // verus!
