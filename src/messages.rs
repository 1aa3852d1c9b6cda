//! Message shapes by which a coherence protocol between caches would drive a
//! table. Nothing in the table consumes them yet.
use vstd::prelude::*;

verus! {

/// The kinds of coherence message.
#[derive(Debug, PartialEq, Eq, Clone)]
pub enum MessageType {
    /// A request for the line at an address.
    Request(u64),
    /// The value held at an address, sent in answer to a request.
    Response(u64, u32),
    /// A request passed on to the line's current owner.
    Forward(u64),
    /// Notice that the line at an address has left a cache.
    Evict(u64),
    /// No operation.
    Nop,
}

/// The envelope in which a message travels.
#[derive(Debug, PartialEq, Eq, Clone)]
pub struct Message {
    pub message_type: MessageType,
    pub requestor_id: u64,
    pub data: Vec<u8>,
    pub address: u32,
}

} // verus!
