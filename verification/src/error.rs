//! Error types for the cryptographic core.
use vstd::prelude::*;

verus! {

/// Everything that can go wrong in the cryptographic core.
///
/// Error values are deliberately coarse: an attacker who can distinguish
/// "bad signature" from "bad MAC" from "unknown prekey" learns more than we
/// want to give away, so the decrypt path collapses most failures into
/// [`Error::Decrypt`].
#[derive(Debug, Clone, PartialEq, Eq)]
pub enum Error {
    /// A signature over a prekey / bundle field did not verify.
    BadSignature,
    /// A public key or ciphertext had the wrong length or was malformed.
    MalformedKey,
    /// AEAD open failed, or a ratchet/handshake step could not be completed.
    Decrypt,
    /// The referenced one-time prekey or signed prekey is not in the store
    /// (already consumed, or never existed).
    UnknownPrekey,
    /// Wire (de)serialization failed; the text says where.
    Wire(String),
    /// A message arrived that this session cannot process in its current state
    /// (e.g. a normal message before the handshake completed).
    UnexpectedMessage,
}

/// Result alias used throughout the core.
pub type Result<T> = core::result::Result<T, Error>;

impl Error {
    /// The human-readable description of the error.
    pub fn to_string(&self) -> (s: String)
        ensures
            s@ == spec_error_text(*self),
    {
        match self {
            Error::BadSignature => String::from_str("signature verification failed"),
            Error::MalformedKey => String::from_str("malformed key or ciphertext"),
            Error::Decrypt => String::from_str("decryption failed"),
            Error::UnknownPrekey => String::from_str("unknown prekey id"),
            Error::Wire(m) => {
                let mut s = String::from_str("wire encoding error: ");
                s.append(m.as_str());
                s
            },
            Error::UnexpectedMessage => String::from_str("unexpected message for session state"),
        }
    }
}

/// The description of each error.
pub open spec fn spec_error_text(e: Error) -> Seq<char> {
    match e {
        Error::BadSignature => "signature verification failed"@,
        Error::MalformedKey => "malformed key or ciphertext"@,
        Error::Decrypt => "decryption failed"@,
        Error::UnknownPrekey => "unknown prekey id"@,
        Error::Wire(m) => "wire encoding error: "@ + m@,
        Error::UnexpectedMessage => "unexpected message for session state"@,
    }
}

/// A wire error carrying a short description.
pub fn wire_error(what: &str) -> (e: Error)
    ensures
        e matches Error::Wire(m) && m@ == what@,
{
    Error::Wire(what.to_string())
}

} // verus!
