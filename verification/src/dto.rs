//! Network interface state as shown to the front end: raw interface flags
//! and connection status.

use vstd::prelude::*;

verus! {

/// Flags of an interface: the raw bits and the connection status.
#[derive(Debug)]
pub struct DeviceFlags {
    pub if_flags: IfFlags,
    pub connection_status: ConnectionStatus,
}

/// Interface flags, carried as their raw bits.
#[derive(Debug, Clone, Copy, PartialEq, Eq, Structural)]
pub struct IfFlags {
    pub bits: u32,
}

/// Connection status of an interface.
#[derive(Debug, Clone, Copy, PartialEq, Eq, Structural)]
pub enum ConnectionStatus {
    Unknown,
    Connected,
    Disconnected,
    NotApplicable,
}

} // verus!
