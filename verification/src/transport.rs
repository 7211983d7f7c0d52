//! Transport abstraction.
//!
//! The cryptographic core is transport-agnostic: an encoded message is just
//! opaque bytes, so it can travel over an HTTPS relay, over Tor, or hop
//! device-to-device across a Bluetooth mesh. This trait is the seam that lets
//! an app pick a transport per threat model without the protocol code caring.
use vstd::prelude::*;

verus! {

/// A message transport addressed by 32-byte identity keys.
///
/// `send` hands an opaque, already-encrypted payload toward a recipient;
/// `receive` returns payloads addressed to `me`. A transport may keep state
/// (a mesh node's store, an inbox), so both take `&mut self`.
pub trait MessageTransport {
    /// Route an opaque payload toward `recipient`.
    fn send(&mut self, recipient: &[u8; 32], payload: &[u8]) -> core::result::Result<(), TransportError>;

    /// Collect any payloads addressed to `me` that this transport has for us.
    fn receive(&mut self, me: &[u8; 32]) -> core::result::Result<Vec<Vec<u8>>, TransportError>;
}

/// A transport-layer error, kept deliberately simple and string-based so any
/// transport (HTTP, Tor, radio) can map into it.
#[derive(Debug, Clone)]
pub struct TransportError(pub String);

impl From<String> for TransportError {
    /// An error with the given description.
    fn from(message: String) -> (e: TransportError) {
        TransportError(message)
    }
}

impl vstd::std_specs::convert::FromSpecImpl<String> for TransportError {
    open spec fn obeys_from_spec() -> bool {
        true
    }

    open spec fn from_spec(message: String) -> TransportError {
        TransportError(message)
    }
}

impl TransportError {
    /// `"transport error: "` followed by the description.
    pub fn to_string(&self) -> (s: String)
        ensures
            s@ == "transport error: "@ + self.0@,
    {
        let mut s = String::from_str("transport error: ");
        s.append(self.0.as_str());
        s
    }
}

} // verus!
