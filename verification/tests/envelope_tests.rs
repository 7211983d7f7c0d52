use clarity::envelope::{open_envelope, seal_envelope, HEADER_LEN, SEALED_ENVELOPE_VERSION};
use clarity::error::Error;
use clarity::identity::Account;
use clarity::inbox::{epoch_for_unix, inbox_id, inbox_window, INBOX_EPOCH_SECONDS};

#[test]
fn round_trip_reveals_sender_only_to_recipient() {
    let alice = Account::generate();
    let bob = Account::generate();

    let blob = seal_envelope(&alice, &bob.identity_dh_public(), b"hello bob");

    let alice_ed = alice.identity_public();
    let alice_dh = alice.identity_dh_public();
    assert!(!blob
        .windows(32)
        .any(|w| w == alice_ed.as_slice() || w == alice_dh.as_slice()));

    let opened = open_envelope(&bob, &blob).expect("bob opens");
    assert_eq!(opened.sender_identity_ed, alice_ed);
    assert_eq!(opened.sender_identity_dh, alice_dh);
    assert_eq!(opened.payload, b"hello bob");
}

#[test]
fn wrong_recipient_and_tampering_fail_opaquely() {
    let alice = Account::generate();
    let bob = Account::generate();
    let eve = Account::generate();

    let blob = seal_envelope(&alice, &bob.identity_dh_public(), b"secret");

    assert!(matches!(open_envelope(&eve, &blob), Err(Error::Decrypt)));

    let mut flipped = blob.clone();
    *flipped.last_mut().unwrap() ^= 1;
    assert!(matches!(open_envelope(&bob, &flipped), Err(Error::Decrypt)));

    let mut bad_version = blob.clone();
    bad_version[0] = 0xFF;
    assert!(matches!(open_envelope(&bob, &bad_version), Err(Error::Decrypt)));

    assert!(matches!(open_envelope(&bob, b"short"), Err(Error::Decrypt)));
}

#[test]
fn envelopes_are_pairwise_unlinkable() {
    let alice = Account::generate();
    let bob = Account::generate();
    let a = seal_envelope(&alice, &bob.identity_dh_public(), b"same payload");
    let b = seal_envelope(&alice, &bob.identity_dh_public(), b"same payload");
    assert_ne!(a[1..33], b[1..33]);
    assert_ne!(a[33..], b[33..]);
}

#[test]
fn empty_payload_round_trips() {
    let alice = Account::generate();
    let bob = Account::generate();
    let blob = seal_envelope(&alice, &bob.identity_dh_public(), b"");
    assert_eq!(open_envelope(&bob, &blob).unwrap().payload, Vec::<u8>::new());
}

#[test]
fn envelope_layout_is_version_then_ephemeral() {
    let alice = Account::generate();
    let bob = Account::generate();
    let blob = seal_envelope(&alice, &bob.identity_dh_public(), b"abc");
    assert_eq!(blob[0], SEALED_ENVELOPE_VERSION);
    // header + 64-byte sender prefix + payload + 16-byte tag
    assert_eq!(blob.len(), HEADER_LEN + 64 + 3 + 16);
    // exactly the header is too short to open
    assert!(matches!(open_envelope(&bob, &blob[..HEADER_LEN]), Err(Error::Decrypt)));
}

#[test]
fn deterministic_and_epoch_dependent() {
    let id = [7u8; 32];
    assert_eq!(inbox_id(&id, 20_000), inbox_id(&id, 20_000));
    assert_ne!(inbox_id(&id, 20_000), inbox_id(&id, 20_001));
    assert_ne!(inbox_id(&id, 20_000), inbox_id(&[8u8; 32], 20_000));
    assert_ne!(inbox_id(&id, 20_000), id);
}

#[test]
fn epoch_boundaries() {
    assert_eq!(epoch_for_unix(0), 0);
    assert_eq!(epoch_for_unix(INBOX_EPOCH_SECONDS - 1), 0);
    assert_eq!(epoch_for_unix(INBOX_EPOCH_SECONDS), 1);
}

#[test]
fn window_covers_inclusive_range() {
    let id = [1u8; 32];
    let w = inbox_window(&id, 10, 12);
    assert_eq!(w.len(), 3);
    assert_eq!(w[0], inbox_id(&id, 10));
    assert_eq!(w[2], inbox_id(&id, 12));
    assert!(inbox_window(&id, 12, 10).is_empty());
}

#[test]
fn epoch_for_a_known_day() {
    assert_eq!(epoch_for_unix(1_754_000_000), 20_300);
    assert_eq!(epoch_for_unix(u64::MAX), u64::MAX / 86_400);
}
