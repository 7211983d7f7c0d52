//! Request/response types for the relay HTTP API.
//!
//! All binary fields are base64 (standard alphabet), which keeps the wire
//! format human-readable and easy to reimplement in any client language.
use vstd::prelude::*;

use crate::crypto::{base64_decode, base64_encode, spec_base64_decode, spec_base64_encode};

verus! {

/// `POST /publish`: upload prekeys.
pub struct PublishRequest {
    /// base64 of the base prekey bundle (wire-encoded).
    pub bundle: String,
    /// One-time prekeys to dispense, one per bundle fetch.
    pub one_time: Vec<OneTimePrekey>,
}

/// A single one-time prekey entry.
pub struct OneTimePrekey {
    pub id: u32,
    /// base64 of the 32-byte X25519 public key.
    pub public: String,
}

/// `GET /bundle?identity=<base64>` response.
pub struct BundleResponse {
    /// base64 of the wire-encoded prekey bundle.
    pub bundle: String,
}

/// `POST /send`: queue a message for a mailbox.
pub struct SendRequest {
    /// base64 of the 32-byte mailbox key (a rotating inbox ID).
    pub recipient: String,
    /// base64 of an opaque sealed envelope.
    pub message: String,
}

/// `GET /poll?recipient=<base64>` response.
pub struct PollResponse {
    /// base64-encoded messages, in delivery order.
    pub messages: Vec<String>,
}

/// Encode bytes as standard base64.
pub fn b64(bytes: &[u8]) -> (s: String)
    ensures
        s@ == spec_base64_encode(bytes@),
{
    base64_encode(bytes)
}

/// Decode standard base64 into bytes; the error names the problem.
pub fn unb64(s: &str) -> (r: Result<Vec<u8>, String>)
    ensures
        match r {
            Ok(v) => spec_base64_decode(s@) == Some(v@),
            Err(_) => spec_base64_decode(s@) is None,
        },
        forall|b: Seq<u8>| #[trigger] spec_base64_encode(b) == s@ ==> (r matches Ok(v) && v@ == b),
{
    base64_decode(s)
}

/// Decode a base64 string that must be exactly 32 bytes: a string that
/// decodes to another length is refused with `"expected 32-byte key"`.
pub fn unb64_key(s: &str) -> (r: Result<[u8; 32], String>)
    ensures
        match r {
            Ok(k) => spec_base64_decode(s@) == Some(k@),
            Err(e) => !(spec_base64_decode(s@) matches Some(b) && b.len() == 32) && (spec_base64_decode(s@) is Some
                ==> e@ == "expected 32-byte key"@),
        },
        forall|b: Seq<u8>| b.len() == 32 && #[trigger] spec_base64_encode(b) == s@ ==> (r matches Ok(k) && k@ == b),
{
    let bytes = match unb64(s) {
        Ok(b) => b,
        Err(e) => return Err(e),
    };
    if bytes.len() != 32 {
        proof {
            reveal_strlit("expected 32-byte key");
        }
        return Err(String::from_str("expected 32-byte key"));
    }
    let k = crate::bytes::array32_at(bytes.as_slice(), 0);
    assert(bytes@.subrange(0, 32) =~= bytes@);
    Ok(k)
}

} // verus!
