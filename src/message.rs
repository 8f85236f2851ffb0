use vstd::prelude::*;

verus! {

/// A wire-level envelope: who sent it, who it is for, and its body.
#[derive(Debug, Clone)]
pub struct Message<Payload> {
    pub src: String,
    pub dest: String,
    pub body: Body<Payload>,
}

/// The body of an envelope: its own id, the id of the request it answers, and its payload.
#[derive(Debug, Clone)]
pub struct Body<Payload> {
    pub id: Option<usize>,
    pub in_reply_to: Option<usize>,
    pub payload: Payload,
}

impl<Payload> Message<Payload> {
    /// Turns a request into the envelope that answers it: source and destination swap, the
    /// request's id becomes `in_reply_to`, and the payload is carried over for the caller to
    /// replace.
    pub fn into_reply(self, id: Option<usize>) -> (r: Self)
        ensures
            r.src == self.dest,
            r.dest == self.src,
            r.body.id == id,
            r.body.in_reply_to == self.body.id,
            r.body.payload == self.body.payload,
    {
        Self {
            src: self.dest,
            dest: self.src,
            body: Body { id, in_reply_to: self.body.id, payload: self.body.payload },
        }
    }
}

} // verus!
