//! Core of a userspace network adapter that tunnels TCP connections over an
//! encrypted UDP transport.
//!
//! The library holds the verified decision logic of the engine: key decoding,
//! address parsing and formatting, the ephemeral port allocator, synthetic
//! heartbeat packet construction, the connection and listener registries with
//! their pending-buffer bookkeeping, and the tunnel session built on the
//! noise-protocol implementation. The surrounding process (UDP sockets, the
//! TCP/IP stack driver and the host-facing bridge) performs the I/O and hands
//! events to these functions as plain values.

pub mod addr;
pub mod engine;
pub mod keys;
pub mod link;
pub mod packet;
pub mod ports;
pub mod tunnel;

use vstd::prelude::*;

verus! {

/// The error kinds that engine operations surface to the host.
#[derive(Clone, Copy, PartialEq, Eq, Structural, Debug)]
pub enum EngineError {
    /// A key was not valid base64 under the standard alphabet.
    BadKeyEncoding,
    /// A key decoded to a length other than 32 bytes.
    BadKeyLength,
    /// A listen was requested on a port that already has a listener.
    BindConflict,
}

} // verus!
