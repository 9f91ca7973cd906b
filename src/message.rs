//! The messages that nodes exchange: an envelope with its sender, the
//! overlay it belongs to and a correlation token, around a request or a reply.
use vstd::prelude::*;
use crate::key::Key;
use crate::routing::NodeInfo;

verus! {

/// One datagram's content.
#[derive(Debug)]
pub struct Message {
    /// The overlay the sender belongs to; other overlays ignore the message.
    pub net_id: String,
    /// The sender.
    pub src: NodeInfo,
    /// Chosen by the initiator of a request and echoed in its reply.
    pub token: Key,
    pub payload: Payload,
}

/// A request or a reply.
#[derive(Debug)]
pub enum Payload {
    Request(Request),
    Reply(Reply),
}

/// What a node asks of another.
#[derive(Debug)]
pub enum Request {
    /// Is the peer alive?
    PingRequest,
    /// Store this value under this key.
    StoreRequest(Key, Vec<u8>),
    /// Which known peers are closest to this identifier?
    FindNodeRequest(Key),
    /// The value under this key, or else the known peers closest to it.
    FindValueRequest(Key),
}

/// What a node answers.
#[derive(Debug)]
pub enum Reply {
    /// The peer is alive.
    PingReply,
    /// Whether the value was stored.
    StoreReply(bool),
    /// Known peers, nearest to the asked identifier first.
    FindNodeReply(Vec<NodeInfo>),
    /// The value asked for.
    FindValueReply(Vec<u8>),
}

} // verus!
