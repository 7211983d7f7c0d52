//! The relay client's requests and the reading of the relay's replies.
//!
//! A client reaches a relay directly or through a Tor SOCKS5 proxy; either
//! way the wire protocol is the same. What goes into each request and what a
//! reply means is decided here; the HTTP calls themselves belong to the
//! client binary.
use vstd::prelude::*;

use crate::crypto::{base64_decode, spec_base64_decode, spec_base64_encode};
use crate::error::spec_error_text;
use crate::relay::protocol::{b64, BundleResponse, OneTimePrekey, PollResponse, PublishRequest, SendRequest};
use crate::wire::{spec_bundle_encoding, PreKeyBundle};
use crate::codec::is_prefix;

verus! {

/// Errors from the relay transport.
#[derive(Debug)]
pub enum NetError {
    /// Proxy/agent configuration error.
    Config(String),
    /// Network or non-2xx HTTP error.
    Http(String),
    /// Response body could not be decoded.
    Decode(String),
    /// JSON (de)serialization error.
    Json(String),
    /// I/O error reading a response body.
    Io(String),
}

impl NetError {
    /// The human-readable description of the error.
    pub fn to_string(&self) -> (s: String)
        ensures
            s@ == match self {
                NetError::Config(m) => "transport config error: "@ + m@,
                NetError::Http(m) => "relay request failed: "@ + m@,
                NetError::Decode(m) => "response decode error: "@ + m@,
                NetError::Json(m) => "json error: "@ + m@,
                NetError::Io(m) => "io error: "@ + m@,
            },
    {
        let (prefix, m) = match self {
            NetError::Config(m) => ("transport config error: ", m),
            NetError::Http(m) => ("relay request failed: ", m),
            NetError::Decode(m) => ("response decode error: ", m),
            NetError::Json(m) => ("json error: ", m),
            NetError::Io(m) => ("io error: ", m),
        };
        let mut s = String::from_str(prefix);
        s.append(m.as_str());
        s
    }
}

/// Strip trailing `/` characters.
pub open spec fn trim_slashes(s: Seq<char>) -> Seq<char>
    decreases s.len(),
{
    if s.len() > 0 && s.last() == '/' {
        trim_slashes(s.drop_last())
    } else {
        s
    }
}

/// The URL of an endpoint: the base URL without trailing slashes, then the
/// path.
pub fn relay_url(base_url: &str, path: &str) -> (url: String)
    ensures
        url@ == trim_slashes(base_url@) + path@,
{
    let mut k = base_url.unicode_len();
    assert(base_url@.subrange(0, k as int) =~= base_url@);
    while k > 0 && base_url.get_char(k - 1) == '/'
        invariant
            k <= base_url@.len(),
            trim_slashes(base_url@) == trim_slashes(base_url@.subrange(0, k as int)),
        decreases k,
    {
        proof {
            let s = base_url@.subrange(0, k as int);
            assert(s.drop_last() =~= base_url@.subrange(0, k - 1));
        }
        k = k - 1;
    }
    let head = base_url.substring_char(0, k);
    let mut url = String::from_str(head);
    url.append(path);
    url
}

/// The proxy URL of a Tor SOCKS5 proxy listening at `socks_addr`; the proxy
/// resolves host names, so `.onion` relays are reachable and no DNS query
/// leaves the machine.
pub fn socks_proxy_url(socks_addr: &str) -> (url: String)
    ensures
        url@ == "socks5://"@ + socks_addr@,
{
    let mut url = String::from_str("socks5://");
    url.append(socks_addr);
    url
}

/// The `POST /publish` request for a base bundle and one-time prekey pool.
pub fn publish_request(base_bundle: &PreKeyBundle, one_time: &[(u32, [u8; 32])]) -> (r: PublishRequest)
    ensures
        r.bundle@ == spec_base64_encode(spec_bundle_encoding(*base_bundle)),
        r.one_time@.len() == one_time@.len(),
        forall|i: int|
            0 <= i < one_time@.len() ==> #[trigger] r.one_time@[i].id == one_time@[i].0 && r.one_time@[i].public@
                == spec_base64_encode(one_time@[i].1@),
{
    let bundle = b64(base_bundle.encode().as_slice());
    let mut entries: Vec<OneTimePrekey> = Vec::new();
    let mut i: usize = 0;
    while i < one_time.len()
        invariant
            i <= one_time@.len(),
            entries@.len() == i,
            forall|j: int|
                0 <= j < i ==> #[trigger] entries@[j].id == one_time@[j].0 && entries@[j].public@ == spec_base64_encode(
                    one_time@[j].1@,
                ),
        decreases one_time@.len() - i,
    {
        let (id, public) = one_time[i];
        entries.push(OneTimePrekey { id, public: b64(public.as_slice()) });
        i = i + 1;
    }
    PublishRequest { bundle, one_time: entries }
}

/// The `POST /send` request queueing `message` for `recipient`.
pub fn send_request(recipient: &[u8; 32], message: &[u8]) -> (r: SendRequest)
    ensures
        r.recipient@ == spec_base64_encode(recipient@),
        r.message@ == spec_base64_encode(message@),
{
    SendRequest { recipient: b64(recipient.as_slice()), message: b64(message) }
}

/// Decode standard base64, reporting a failure as [`NetError::Decode`].
fn unb64(s: &str) -> (r: Result<Vec<u8>, NetError>)
    ensures
        match r {
            Ok(v) => spec_base64_decode(s@) == Some(v@),
            Err(e) => e is Decode && spec_base64_decode(s@) is None,
        },
{
    match base64_decode(s) {
        Ok(v) => Ok(v),
        Err(m) => Err(NetError::Decode(m)),
    }
}

/// The bundle a `GET /bundle` reply carries: base64, then the wire encoding.
/// [`NetError::Decode`] when either layer does not decode.
pub fn bundle_from_response(resp: &BundleResponse) -> (r: Result<PreKeyBundle, NetError>)
    ensures
        match r {
            Ok(b) => spec_base64_decode(resp.bundle@) matches Some(bytes) && is_prefix(spec_bundle_encoding(b), bytes),
            Err(e) => e is Decode && match spec_base64_decode(resp.bundle@) {
                None => true,
                Some(bytes) => forall|b: PreKeyBundle| !is_prefix(#[trigger] spec_bundle_encoding(b), bytes),
            },
        },
{
    let bytes = match unb64(resp.bundle.as_str()) {
        Ok(b) => b,
        Err(e) => return Err(e),
    };
    match PreKeyBundle::decode(bytes.as_slice()) {
        Ok(b) => Ok(b),
        Err(e) => Err(NetError::Decode(e.to_string())),
    }
}

/// The messages a `GET /poll` reply carries, each base64-decoded, in order.
/// [`NetError::Decode`] at the first one that does not decode.
pub fn messages_from_response(resp: &PollResponse) -> (r: Result<Vec<Vec<u8>>, NetError>)
    ensures
        match r {
            Ok(v) => v@.len() == resp.messages@.len() && forall|i: int|
                0 <= i < v@.len() ==> spec_base64_decode(resp.messages@[i]@) == Some(#[trigger] v@[i]@),
            Err(e) => e is Decode && exists|i: int|
                0 <= i < resp.messages@.len() && spec_base64_decode(#[trigger] resp.messages@[i]@) is None,
        },
{
    let mut out: Vec<Vec<u8>> = Vec::new();
    let mut i: usize = 0;
    while i < resp.messages.len()
        invariant
            i <= resp.messages@.len(),
            out@.len() == i,
            forall|j: int| 0 <= j < i ==> spec_base64_decode(resp.messages@[j]@) == Some(#[trigger] out@[j]@),
        decreases resp.messages@.len() - i,
    {
        match unb64(resp.messages[i].as_str()) {
            Ok(b) => out.push(b),
            Err(e) => {
                assert(spec_base64_decode(resp.messages@[i as int]@) is None);
                return Err(e);
            },
        }
        i = i + 1;
    }
    Ok(out)
}

} // verus!
