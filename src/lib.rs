//! Nodes of a simulated distributed system: each node takes JSON envelopes in, changes its
//! state, and answers or gossips. The library holds the envelope, the handshake, the node
//! state machines of each protocol and their merge rules, with the laws those rules obey.
use vstd::prelude::*;

pub mod assoc;
pub mod broadcast;
pub mod counter;
pub mod echo;
pub mod guids;
pub mod init;
pub mod kafka;
pub mod message;
pub mod node;
pub mod topology;

verus! {

} // verus!
