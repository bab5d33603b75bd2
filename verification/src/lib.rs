//! Bridge core between MQTT brokers and browser peers: the wire codec for the
//! JSON-RPC-shaped peer protocol, the broker and peer registries with their
//! bounded per-topic histories, and the decision logic of the broker event
//! loop and the peer request dispatcher.

use vstd::prelude::*;

pub mod bridge;
pub mod config;
pub mod json;
pub mod jsonrpc;
pub mod mqtt;
pub mod websocket;

verus! {

/// Largest MQTT payload, in bytes, that is stored and forwarded verbatim;
/// anything longer is replaced by a marker string.
pub const PAYLOAD_LIMIT: usize = 1000000;

} // verus!
