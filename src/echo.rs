use vstd::prelude::*;

use crate::init::Init;
use crate::message::{Body, Message};
use crate::node::Node;

verus! {

/// The payloads of the echo protocol.
#[derive(Debug, Clone)]
pub enum EchoPayload {
    Echo { echo: String },
    EchoOk { echo: String },
}

/// A node that answers each echo request with the text it was sent.
pub struct EchoNode {
    /// The message id of the next reply.
    pub id: usize,
    pub node_id: String,
}

impl Node<EchoPayload> for EchoNode {
    open spec fn wf(&self) -> bool {
        true
    }

    open spec fn next_id(&self) -> usize {
        self.id
    }

    fn next_message_id(&self) -> (r: usize) {
        self.id
    }

    fn new(id: usize, init: Init) -> (r: Self)
        ensures
            r.node_id == init.node_id,
    {
        Self { id, node_id: init.node_id }
    }

    /// An echo is answered with the same text; an acknowledgement is ignored.
    open spec fn handled(
        before: Self,
        input: Message<EchoPayload>,
        after: Self,
        r: Option<Message<EchoPayload>>,
    ) -> bool {
        &&& after.node_id == before.node_id
        &&& match input.body.payload {
            EchoPayload::Echo { echo } => match r {
                Some(m) => m.body.payload == (EchoPayload::EchoOk { echo }),
                None => false,
            },
            EchoPayload::EchoOk { .. } => r is None && after == before,
        }
    }

    open spec fn replies(&self, input: Message<EchoPayload>) -> bool {
        input.body.payload is Echo
    }

    /// Echo has no state to spread.
    open spec fn gossips_as(&self, out: Seq<Message<EchoPayload>>) -> bool {
        out.len() == 0
    }

    fn handle(&mut self, input: Message<EchoPayload>) -> (r: Option<Message<EchoPayload>>)
    {
        let id = self.id;
        let Message { src, dest, body } = input.into_reply(Some(id));
        match body.payload {
            EchoPayload::Echo { echo } => {
                self.id = id + 1;
                let payload = EchoPayload::EchoOk { echo };
                Some(Message { src, dest, body: Body { id: body.id, in_reply_to: body.in_reply_to, payload } })
            },
            EchoPayload::EchoOk { .. } => None,
        }
    }

    fn handle_gossip(&self) -> (r: Vec<Message<EchoPayload>>) {
        Vec::new()
    }
}

} // verus!
