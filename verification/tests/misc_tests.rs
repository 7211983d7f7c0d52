use clarity::ffi::encode_byte_list;
use clarity::group::{frame, unframe, Cursor};
use clarity::kdf::{aead_open, aead_seal, kdf_ck, kdf_rk};
use clarity::net::{
    bundle_from_response, messages_from_response, publish_request, relay_url, send_request,
    NetError,
};
use clarity::identity::Account;
use clarity::relay::protocol::{b64, BundleResponse, PollResponse};
use clarity::relay::store::split_bundle;
use clarity::safety::safety_number;
use clarity::transport::TransportError;

#[test]
fn byte_list_layout() {
    let out = encode_byte_list(&[b"ab".to_vec(), Vec::new(), b"c".to_vec()]);
    assert_eq!(
        out,
        vec![3, 0, 0, 0, 2, 0, 0, 0, b'a', b'b', 0, 0, 0, 0, 1, 0, 0, 0, b'c']
    );
    assert_eq!(encode_byte_list(&[]), vec![0, 0, 0, 0]);
}

#[test]
fn group_framing_round_trips() {
    let fields: [&[u8]; 3] = [b"alice", b"", b"state"];
    let bytes = frame(&fields);
    assert_eq!(&bytes[..4], &[5, 0, 0, 0]);
    let parts = unframe(&bytes, 3).unwrap();
    assert_eq!(parts, fields.to_vec());
    assert!(unframe(&bytes, 2).is_none());
    assert!(unframe(&bytes, 4).is_none());
    assert!(unframe(&bytes[..bytes.len() - 1], 3).is_none());

    let mut c = Cursor::new(&bytes);
    assert_eq!(c.read_bytes(), Some(&b"alice"[..]));
    assert_eq!(c.read_u32(), Some(0));
    assert!(!c.is_done());
    assert_eq!(c.read_bytes(), Some(&b"state"[..]));
    assert!(c.is_done());
    assert_eq!(c.read_u32(), None);
}

#[test]
fn relay_urls_drop_trailing_slashes() {
    assert_eq!(relay_url("http://relay.example//", "/poll"), "http://relay.example/poll");
    assert_eq!(relay_url("http://relay.example", "/send"), "http://relay.example/send");
    assert_eq!(relay_url("", "/x"), "/x");
}

#[test]
fn requests_carry_base64_fields() {
    let r = send_request(&[0u8; 32], b"hi");
    assert_eq!(r.recipient, b64(&[0u8; 32]));
    assert_eq!(r.message, "aGk=");

    let bob = Account::generate_with_prekeys(2);
    let (base, one_time) = split_bundle(&bob);
    let p = publish_request(&base, &one_time);
    assert_eq!(p.bundle, b64(&base.encode()));
    assert_eq!(p.one_time.len(), 2);
    assert_eq!(p.one_time[0].id, one_time[0].0);
    assert_eq!(p.one_time[1].public, b64(&one_time[1].1));

    let back = bundle_from_response(&BundleResponse { bundle: p.bundle.clone() }).unwrap();
    assert_eq!(back.encode(), base.encode());
    assert!(matches!(
        bundle_from_response(&BundleResponse { bundle: "!!".to_string() }),
        Err(NetError::Decode(_))
    ));
    assert!(matches!(
        bundle_from_response(&BundleResponse { bundle: b64(b"not a bundle") }),
        Err(NetError::Decode(_))
    ));
}

#[test]
fn poll_responses_decode_in_order() {
    let resp = PollResponse { messages: vec![b64(b"one"), b64(b"two")] };
    assert_eq!(messages_from_response(&resp).unwrap(), vec![b"one".to_vec(), b"two".to_vec()]);
    let bad = PollResponse { messages: vec![b64(b"one"), "%%".to_string()] };
    assert!(matches!(messages_from_response(&bad), Err(NetError::Decode(_))));
}

#[test]
fn error_texts() {
    assert_eq!(NetError::Http("503".to_string()).to_string(), "relay request failed: 503");
    assert_eq!(NetError::Json("eof".to_string()).to_string(), "json error: eof");
    assert_eq!(TransportError::from("down".to_string()).to_string(), "transport error: down");
    assert_eq!(TransportError::from("x".to_string()).0, "x");
}

#[test]
fn safety_number_shape_and_symmetry() {
    let a = [1u8; 32];
    let b = [2u8; 32];
    let s = safety_number(&a, &b);
    assert_eq!(s, safety_number(&b, &a));
    assert_eq!(s.len(), 71);
    let groups: Vec<&str> = s.split(' ').collect();
    assert_eq!(groups.len(), 12);
    assert!(groups.iter().all(|g| g.len() == 5 && g.bytes().all(|c| c.is_ascii_digit())));
    assert_ne!(s, safety_number(&a, &[3u8; 32]));
}

#[test]
fn chain_and_root_steps_change_keys() {
    let ck = [9u8; 32];
    let (next_ck, mk) = kdf_ck(&ck);
    assert_ne!(next_ck, ck);
    assert_ne!(mk, ck);
    assert_ne!(next_ck, mk);
    let (rk, ck2) = kdf_rk(&[1u8; 32], &[2u8; 32]);
    assert_ne!(rk, [1u8; 32]);
    assert_ne!(ck2, [2u8; 32]);
}

#[test]
fn aead_seal_then_open() {
    let key = [5u8; 32];
    let ct = aead_seal(&key, b"plain", b"ad");
    assert_ne!(&ct[..5], b"plain");
    assert_eq!(ct.len(), 5 + 16);
    assert_eq!(aead_open(&key, &ct, b"ad").unwrap(), b"plain");
    assert!(aead_open(&key, &ct, b"other").is_err());
    assert!(aead_open(&[6u8; 32], &ct, b"ad").is_err());
}

#[test]
fn malformed_bundle_bytes_are_refused() {
    let garbage = [0xffu8; 16];
    assert!(clarity::wire::PreKeyBundle::decode(&garbage).is_err());
    assert!(clarity::ffi::bundle_identity_keys(&garbage).is_none());
    let bob = Account::generate_with_prekeys(1);
    let encoded = bob.bundle().encode();
    assert_eq!(
        clarity::ffi::bundle_identity_keys(&encoded),
        Some((bob.identity_public(), bob.identity_dh_public()))
    );
    let mut flipped = encoded.clone();
    flipped[40] ^= 1;
    assert!(clarity::ffi::bundle_identity_keys(&flipped).is_none());
}
