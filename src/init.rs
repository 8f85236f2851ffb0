use vstd::prelude::*;

use crate::message::{Body, Message};

verus! {

/// What the handshake tells a node: its own id and the ids of every node in the cluster.
#[derive(Debug, Clone)]
pub struct Init {
    pub node_id: String,
    pub node_ids: Vec<String>,
}

/// The payloads of the handshake exchange.
#[derive(Debug, Clone)]
pub enum InitPayload {
    Init(Init),
    InitOk,
}

/// Why a handshake failed.
#[derive(Debug, Clone, Copy, PartialEq, Eq)]
pub enum InitError {
    /// The first message was not an initialization request.
    NotInit,
}

/// The acknowledgement that answers the initialization request `message`: addressed back to
/// its sender, with message id 0.
pub open spec fn init_reply(message: Message<InitPayload>) -> Message<InitPayload> {
    Message {
        src: message.dest,
        dest: message.src,
        body: Body { id: Some(0), in_reply_to: message.body.id, payload: InitPayload::InitOk },
    }
}

/// Consumes the first message a node receives. An initialization request yields the
/// acknowledgement to send, the next message id to use (1) and the node's identity and roster;
/// anything else is refused.
pub fn handle_init(message: Message<InitPayload>) -> (r: Result<
    (Message<InitPayload>, usize, Init),
    InitError,
>)
    ensures
        match message.body.payload {
            InitPayload::Init(init) => r == Ok::<_, InitError>((init_reply(message), 1usize, init)),
            InitPayload::InitOk => r == Err::<(Message<InitPayload>, usize, Init), _>(
                InitError::NotInit,
            ),
        },
{
    let Message { src, dest, body } = message;
    match body.payload {
        InitPayload::Init(init) => {
            let reply = Message {
                src: dest,
                dest: src,
                body: Body { id: Some(0), in_reply_to: body.id, payload: InitPayload::InitOk },
            };
            Ok((reply, 1, init))
        },
        InitPayload::InitOk => Err(InitError::NotInit),
    }
}

} // verus!
