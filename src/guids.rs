use vstd::prelude::*;

use crate::init::Init;
use crate::message::{Body, Message};
use crate::node::Node;

verus! {

/// The payloads of the unique-id protocol.
#[derive(Debug, Clone)]
pub enum GeneratePayload {
    Generate,
    GenerateOk { id: String },
}

/// A node that hands out ids unique across the cluster: its own id and a counter.
pub struct GenerateNode {
    /// The message id of the next reply, which is also the counter in the next id.
    pub id: usize,
    pub node_id: String,
}

/// The characters of a decimal digit.
pub open spec fn digit_char(d: nat) -> char {
    seq!['0', '1', '2', '3', '4', '5', '6', '7', '8', '9'][d as int]
}

/// The decimal digits of `n`, most significant first, without leading zeros.
pub open spec fn decimal(n: nat) -> Seq<char>
    decreases n,
{
    if n < 10 {
        seq![digit_char(n)]
    } else {
        decimal(n / 10).push(digit_char(n % 10))
    }
}

/// The id that node `node` hands out with counter `n`: the node's id, a dash, and `n` in
/// decimal.
pub open spec fn guid(node: Seq<char>, n: nat) -> Seq<char> {
    node + seq!['-'] + decimal(n)
}

/// Relies on `format!` with `{}`: a `String` is written as it is and a `usize` in decimal.
#[verifier::external_body]
fn format_guid(node: &String, n: usize) -> (r: String)
    ensures
        r@ == guid(node@, n as nat),
{
    format!("{}-{}", node, n)
}

impl Node<GeneratePayload> for GenerateNode {
    open spec fn wf(&self) -> bool {
        true
    }

    open spec fn next_id(&self) -> usize {
        self.id
    }

    fn next_message_id(&self) -> (r: usize) {
        self.id
    }

    fn new(id: usize, init: Init) -> (r: Self)
        ensures
            r.node_id == init.node_id,
    {
        Self { id, node_id: init.node_id }
    }

    /// A request is answered with the id made of this node's id and its message counter; an
    /// acknowledgement is ignored.
    open spec fn handled(
        before: Self,
        input: Message<GeneratePayload>,
        after: Self,
        r: Option<Message<GeneratePayload>>,
    ) -> bool {
        &&& after.node_id == before.node_id
        &&& match input.body.payload {
            GeneratePayload::Generate => match r {
                Some(m) => match m.body.payload {
                    GeneratePayload::GenerateOk { id } => id@ == guid(before.node_id@, before.id as nat),
                    _ => false,
                },
                None => false,
            },
            GeneratePayload::GenerateOk { .. } => r is None && after == before,
        }
    }

    open spec fn replies(&self, input: Message<GeneratePayload>) -> bool {
        input.body.payload is Generate
    }

    /// Id generation has no state to spread.
    open spec fn gossips_as(&self, out: Seq<Message<GeneratePayload>>) -> bool {
        out.len() == 0
    }

    fn handle(&mut self, input: Message<GeneratePayload>) -> (r: Option<Message<GeneratePayload>>)
    {
        let id = self.id;
        let Message { src, dest, body } = input.into_reply(Some(id));
        match body.payload {
            GeneratePayload::Generate => {
                let guid = format_guid(&self.node_id, id);
                self.id = id + 1;
                let payload = GeneratePayload::GenerateOk { id: guid };
                Some(Message { src, dest, body: Body { id: body.id, in_reply_to: body.in_reply_to, payload } })
            },
            GeneratePayload::GenerateOk { .. } => None,
        }
    }

    fn handle_gossip(&self) -> (r: Vec<Message<GeneratePayload>>) {
        Vec::new()
    }
}

} // verus!
