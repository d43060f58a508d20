//! Core logic of a Micro Transport Protocol (uTP) endpoint: the wire codec,
//! the receive reassembly buffer, the send window, the LEDBAT congestion
//! controller, and the connection state machine.
//!
//! The library is pure protocol logic: datagram I/O and the system clock are
//! supplied by the caller, which hands every inbound packet (and the current
//! microsecond timestamp) to the state machine and transmits the packets the
//! state machine asks for.

use vstd::prelude::*;

pub mod delays;
pub mod packet;
pub mod socket;
pub mod timed_read;

verus! {

/// Errors surfaced by the endpoint state machine.
#[derive(Clone, Copy, Debug, PartialEq, Eq, Structural)]
pub enum SocketError {
    /// An operation was attempted after the connection reached a terminal state.
    ConnectionClosed,
    /// The remote peer sent a Reset packet.
    ConnectionReset,
    /// Malformed wire input.
    InvalidPacket,
    /// While awaiting the handshake reply, something other than a State packet arrived.
    InvalidReply,
    /// A packet type that the current connection state does not handle.
    Other,
}

impl SocketError {
    /// A human-readable description of the error.
    pub fn message(&self) -> &'static str {
        match self {
            SocketError::ConnectionClosed => "The socket is closed",
            SocketError::ConnectionReset => "Connection reset by remote peer",
            SocketError::InvalidPacket => "Error parsing packet",
            SocketError::InvalidReply => "The remote peer sent an invalid reply",
            SocketError::Other => "Unexpected packet for the current state",
        }
    }
}

} // verus!
