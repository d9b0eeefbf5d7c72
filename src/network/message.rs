//! The protocol unit exchanged between nodes.
use vstd::prelude::*;
use crate::bytes::copy_bytes;
use crate::clock::unix_time_millis;
use crate::random::random_bytes;
use crate::types::PeerId;

verus! {

/// Kinds of message.
#[derive(Debug, Clone, Copy, PartialEq, Eq, Structural)]
pub enum MessageType {
    /// Application data.
    Data,
    /// Node lookup request.
    FindNode,
    /// Answer to a node lookup.
    NodeResponse,
    /// Liveness probe.
    Ping,
    /// Answer to a liveness probe.
    Pong,
    /// Presence announcement.
    Announce,
    /// Request to store a value.
    Store,
    /// Request for a value.
    Get,
    /// Answer carrying a value.
    Value,
    /// A kind defined by the application.
    Custom(u8),
}

/// A message envelope. A missing recipient means broadcast.
#[derive(Debug)]
pub struct Message {
    /// Sender.
    pub from: PeerId,
    /// Recipient; `None` for a broadcast.
    pub to: Option<PeerId>,
    /// Kind of message.
    pub message_type: MessageType,
    /// Payload.
    pub data: Vec<u8>,
    /// Milliseconds since the Unix epoch when the message was made.
    pub timestamp: u64,
    /// Random 128-bit token.
    pub id: [u8; 16],
}

/// The bytes of an optional identifier.
pub open spec fn opt_id(o: Option<PeerId>) -> Option<Seq<u8>> {
    match o {
        Some(p) => Some(p@),
        None => None,
    }
}

impl Message {
    /// A data message from `from` to `to`.
    pub fn new_data(from: PeerId, to: PeerId, data: Vec<u8>) -> (r: Message)
        ensures
            r.from == from,
            r.to == Some(to),
            r.message_type == MessageType::Data,
            r.data == data,
    {
        Self::new(from, Some(to), MessageType::Data, data)
    }

    /// A data message from `from` to every peer.
    pub fn new_broadcast(from: PeerId, data: Vec<u8>) -> (r: Message)
        ensures
            r.from == from,
            r.to.is_none(),
            r.message_type == MessageType::Data,
            r.data == data,
    {
        Self::new(from, None, MessageType::Data, data)
    }

    /// A message stamped with the current time and a fresh random token.
    pub fn new(from: PeerId, to: Option<PeerId>, message_type: MessageType, data: Vec<u8>) -> (r:
        Message)
        ensures
            r.from == from,
            r.to == to,
            r.message_type == message_type,
            r.data == data,
    {
        let timestamp = unix_time_millis();
        let b = random_bytes();
        let id: [u8; 16] = [
            b[0],
            b[1],
            b[2],
            b[3],
            b[4],
            b[5],
            b[6],
            b[7],
            b[8],
            b[9],
            b[10],
            b[11],
            b[12],
            b[13],
            b[14],
            b[15],
        ];
        Self::new_at(from, to, message_type, data, timestamp, id)
    }

    /// A message made at `timestamp` with token `id`.
    pub fn new_at(
        from: PeerId,
        to: Option<PeerId>,
        message_type: MessageType,
        data: Vec<u8>,
        timestamp: u64,
        id: [u8; 16],
    ) -> (r: Message)
        ensures
            r == (Message { from, to, message_type, data, timestamp, id }),
    {
        Message { from, to, message_type, data, timestamp, id }
    }

    /// A reply to this message: sender and recipient swap. A broadcast has
    /// no recipient to answer from, so it cannot be replied to.
    pub fn create_response(&self, response_type: MessageType, data: Vec<u8>) -> (r: Message)
        requires
            self.to.is_some(),
        ensures
            r.from@ == self.to.unwrap()@,
            opt_id(r.to) == Some(self.from@),
            r.message_type == response_type,
            r.data == data,
    {
        let from = self.to.as_ref().unwrap().clone();
        Self::new(from, Some(self.from.clone()), response_type, data)
    }
}

impl Clone for Message {
    fn clone(&self) -> (r: Message)
        ensures
            r.from@ == self.from@,
            opt_id(r.to) == opt_id(self.to),
            r.message_type == self.message_type,
            r.data@ == self.data@,
            r.timestamp == self.timestamp,
            r.id == self.id,
    {
        let to = match &self.to {
            Some(t) => Some(t.clone()),
            None => None,
        };
        Message {
            from: self.from.clone(),
            to,
            message_type: self.message_type,
            data: copy_bytes(self.data.as_slice()),
            timestamp: self.timestamp,
            id: self.id,
        }
    }
}

} // verus!
