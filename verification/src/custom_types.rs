//! Control-channel and application-level message vocabulary.

use vstd::prelude::*;

verus! {

/// A control-channel message. The poll loop enqueues `RemoveClient`
/// the moment it detects a disconnect; the drain step at the end of
/// the tick applies it to the registry, so the registry is never
/// mutated while the read pass is iterating it.
#[derive(Debug)]
pub enum ChannelDataType {
    RemoveClient(u64),
    Other,
}

/// Application-level message kinds layered on top of raw frames.
/// The server core neither produces nor consumes these values; they
/// are a payload convention for the embedding application.
#[derive(Debug, Clone, PartialEq, Eq)]
pub enum MessageType {
    Kicked,
    Timeout(u64),
    ConnectionDropped,
    ClientMessage(u64),
    ServerMessage(u64),
    ClientDisconnected(u64),
    NewClient(u64),
    IdAssign(u64),
    Whisper(u64, u64),
    MessageDeserializeError,
}

/// An application-level message: a kind plus an optional opaque body.
#[derive(Debug, Clone, PartialEq, Eq)]
pub struct Message {
    pub message_type: MessageType,
    pub body: Option<Vec<u8>>,
}

impl Message {
    pub fn new(message_type: MessageType, body: Option<Vec<u8>>) -> (r: Self)
        ensures
            r.message_type == message_type,
            r.body == body,
    {
        Self { message_type, body }
    }
}

} // verus!
