//! The bidirectional message protocol: what clients send and what the
//! server sends back. The signaling payloads (offers, answers,
//! candidates) are opaque strings the server relays verbatim.

use vstd::prelude::*;
use crate::position::ClientPosition;

verus! {

/// A message from a client to the server.
pub enum ClientMessage {
    UpdatePosition(ClientPosition),
    RequestPeerRefresh,
    SendOffer { target_id: String, offer: String },
    SendAnswer { target_id: String, answer: String },
    SendIceCandidate { target_id: String, candidate: String },
    Disconnect,
}

/// A message from the server to a client.
pub enum ServerMessage {
    NearbyPeers(Vec<String>),
    ReceiveOffer { sender_id: String, offer: String },
    ReceiveAnswer { sender_id: String, answer: String },
    ReceiveIceCandidate { sender_id: String, candidate: String },
    Error(String),
}

} // verus!
