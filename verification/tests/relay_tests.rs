use clarity::envelope::{open_envelope, seal_envelope};
use clarity::identity::Account;
use clarity::inbox::{epoch_for_unix, inbox_id, inbox_window};
use clarity::relay::protocol::{
    b64, unb64, unb64_key, BundleResponse, OneTimePrekey, PollResponse, PublishRequest, SendRequest,
};
use clarity::relay::server::{
    handle_bundle, handle_poll, handle_publish, handle_send, query_param, query_param_defined, route,
    split_url, url_decodable, url_decode, HttpMethod, RateLimiter, Reply, Route,
};
use clarity::relay::store::{flush_due, snapshot_version_supported, split_bundle, RelayStore, StoreError, StoreLimits, SNAPSHOT_VERSION};
use clarity::session::Session;
use clarity::wire::Message;

#[test]
fn end_to_end_through_store() {
    let mut store = RelayStore::new();

    let alice = Account::generate_with_prekeys(5);
    let mut bob = Account::generate_with_prekeys(5);

    let (base, one_time) = split_bundle(&bob);
    store.publish(base, one_time);

    let bob_id = bob.identity_public();
    let alice_id = alice.identity_public();

    let bundle = store.fetch_bundle(&bob_id).expect("bundle present");
    let mut alice_session = Session::initiate(&alice, &bundle).unwrap();

    let msg = alice_session.encrypt(b"meet at the usual place").unwrap();
    store.enqueue(bob_id, msg.encode()).unwrap();

    let inbox = store.poll(&bob_id);
    assert_eq!(inbox.len(), 1);
    let incoming = Message::decode(&inbox[0]).unwrap();
    let (mut bob_session, plaintext) = Session::respond(&mut bob, &incoming).unwrap();
    assert_eq!(plaintext, b"meet at the usual place");

    let reply = bob_session.encrypt(b"understood").unwrap();
    store.enqueue(alice_id, reply.encode()).unwrap();

    let inbox = store.poll(&alice_id);
    let incoming = Message::decode(&inbox[0]).unwrap();
    assert_eq!(alice_session.decrypt(&incoming).unwrap(), b"understood");

    assert!(store.poll(&alice_id).is_empty());
    assert!(store.poll(&bob_id).is_empty());
}

#[test]
fn one_time_prekey_dispensed_per_fetch() {
    let mut store = RelayStore::new();
    let bob = Account::generate_with_prekeys(2);
    let (base, one_time) = split_bundle(&bob);
    store.publish(base, one_time);
    let id = bob.identity_public();

    let first = store.fetch_bundle(&id).unwrap();
    let second = store.fetch_bundle(&id).unwrap();
    let third = store.fetch_bundle(&id).unwrap();

    assert!(first.one_time_prekey_id.is_some());
    assert!(second.one_time_prekey_id.is_some());
    assert_ne!(first.one_time_prekey_id, second.one_time_prekey_id);
    assert!(third.one_time_prekey_id.is_none());
}

#[test]
fn unknown_identity_has_no_bundle() {
    let mut store = RelayStore::new();
    assert!(store.fetch_bundle(&[9u8; 32]).is_none());
    assert_eq!(store.one_time_remaining(&[9u8; 32]), 0);
    assert!(!store.is_dirty());
}

#[test]
fn republish_replaces_the_pool() {
    let mut store = RelayStore::new();
    let bob = Account::generate_with_prekeys(3);
    let id = bob.identity_public();
    let (base, one_time) = split_bundle(&bob);
    store.publish(base.copy(), one_time);
    assert_eq!(store.one_time_remaining(&id), 3);
    store.publish(base, vec![(77, [5u8; 32])]);
    assert_eq!(store.one_time_remaining(&id), 1);
    let b = store.fetch_bundle(&id).unwrap();
    assert_eq!(b.one_time_prekey_id, Some(77));
    assert_eq!(b.one_time_prekey, Some([5u8; 32]));
    assert_eq!(store.one_time_remaining(&id), 0);
}

#[test]
fn oversized_message_is_refused() {
    let limits = StoreLimits { max_message_bytes: 4, ..StoreLimits::default() };
    let mut store = RelayStore::with_limits(limits);
    assert_eq!(store.enqueue_at([1u8; 32], vec![0u8; 5], 10), Err(StoreError::MessageTooLarge));
    assert!(!store.is_dirty());
    assert_eq!(store.enqueue_at([1u8; 32], vec![0u8; 4], 10), Ok(()));
    assert!(store.is_dirty());
    store.mark_clean();
    assert!(!store.is_dirty());
}

#[test]
fn mailbox_caps_drop_the_oldest() {
    let limits = StoreLimits {
        max_mailbox_messages: 2,
        max_mailbox_bytes: 5,
        ..StoreLimits::default()
    };
    let mut store = RelayStore::with_limits(limits);
    let m = [3u8; 32];
    store.enqueue_at(m, b"a".to_vec(), 1).unwrap();
    store.enqueue_at(m, b"b".to_vec(), 2).unwrap();
    store.enqueue_at(m, b"c".to_vec(), 3).unwrap();
    assert_eq!(store.poll_at(&m, 3), vec![b"b".to_vec(), b"c".to_vec()]);

    store.enqueue_at(m, b"xyz".to_vec(), 4).unwrap();
    store.enqueue_at(m, b"uvw".to_vec(), 5).unwrap();
    // 6 bytes exceed the 5-byte cap: the oldest goes.
    assert_eq!(store.poll_at(&m, 5), vec![b"uvw".to_vec()]);
}

#[test]
fn expired_mail_is_dropped_on_poll_and_sweep() {
    let limits = StoreLimits { mail_ttl_secs: 100, ..StoreLimits::default() };
    let mut store = RelayStore::with_limits(limits);
    let a = [1u8; 32];
    let b = [2u8; 32];
    store.enqueue_at(a, b"old".to_vec(), 1_000).unwrap();
    store.enqueue_at(a, b"new".to_vec(), 1_150).unwrap();
    assert_eq!(store.poll_at(&a, 1_200), vec![b"new".to_vec()]);

    store.enqueue_at(b, b"old".to_vec(), 1_000).unwrap();
    store.enqueue_at(b, b"new".to_vec(), 1_150).unwrap();
    store.mark_clean();
    assert_eq!(store.sweep_expired_at(1_200), 1);
    assert!(store.is_dirty());
    store.mark_clean();
    assert_eq!(store.sweep_expired_at(1_200), 0);
    assert!(!store.is_dirty());
    assert_eq!(store.sweep_expired_at(10_000), 1);
    assert!(store.poll_at(&b, 10_000).is_empty());
}

#[test]
fn flush_is_due_only_when_dirty_and_a_second_passed() {
    assert!(clarity::relay::server::sweep_due(3600));
    assert!(!clarity::relay::server::sweep_due(3599));
    assert!(flush_due(true, 1));
    assert!(!flush_due(true, 0));
    assert!(!flush_due(false, 5));
}

#[test]
fn routes_by_method_and_path() {
    assert_eq!(route(HttpMethod::Get, b"/health"), Route::Health);
    assert_eq!(route(HttpMethod::Post, b"/publish"), Route::Publish);
    assert_eq!(route(HttpMethod::Get, b"/bundle"), Route::Bundle);
    assert_eq!(route(HttpMethod::Post, b"/send"), Route::Send);
    assert_eq!(route(HttpMethod::Get, b"/poll"), Route::Poll);
    assert_eq!(route(HttpMethod::Post, b"/poll"), Route::NotFound);
    assert_eq!(route(HttpMethod::Other, b"/health"), Route::NotFound);
    assert_eq!(route(HttpMethod::Get, b"/nope"), Route::NotFound);
}

#[test]
fn urls_split_at_the_first_question_mark() {
    let (p, q) = split_url(b"/poll?recipient=abc?d");
    assert_eq!(p, b"/poll");
    assert_eq!(q, b"recipient=abc?d");
    let (p, q) = split_url(b"/health");
    assert_eq!(p, b"/health");
    assert!(q.is_empty());
}

#[test]
fn query_values_are_percent_decoded() {
    let q: &[u8] = b"a=1&identity=ab%2Bc%2F%3D&identity=zz&flag";
    assert!(query_param_defined(q, b"identity"));
    assert_eq!(query_param(q, b"identity"), Some("ab+c/=".to_string()));
    assert_eq!(query_param(q, b"a"), Some("1".to_string()));
    assert_eq!(query_param(q, b"flag"), Some(String::new()));
    assert_eq!(query_param(q, b"missing"), None);
    assert_eq!(url_decode(b"x%41y"), "xAy");
    assert!(url_decodable(b"%4"));
    assert_eq!(url_decode(b"%zz+%+9"), "%zz \u{9}");
    // an escape whose digits would split a multi-byte character
    assert!(!url_decodable(b"%a\xC3\xA9"));
    assert!(!query_param_defined(b"k=%a\xC3\xA9", b"k"));
}

#[test]
fn rate_limiter_counts_per_peer_per_minute() {
    let mut rl = RateLimiter::new(2);
    let a: &[u8] = &[4, 10, 0, 0, 1];
    let b: &[u8] = &[4, 10, 0, 0, 2];
    assert!(rl.allow(a, 0));
    assert!(rl.allow(a, 30));
    assert!(!rl.allow(a, 59));
    assert!(rl.allow(b, 59));
    assert!(rl.allow(a, 60));
}

#[test]
fn base64_helpers_round_trip() {
    let s = b64(b"hello");
    assert_eq!(s, "aGVsbG8=");
    assert_eq!(unb64(&s).unwrap(), b"hello");
    assert!(unb64("***").is_err());
    let key = [6u8; 32];
    assert_eq!(unb64_key(&b64(&key)).unwrap(), key);
    assert_eq!(unb64_key(&b64(b"short")).unwrap_err(), "expected 32-byte key");
    let _ = (BundleResponse { bundle: s.clone() }, PollResponse { messages: vec![s] });
}

#[test]
fn snapshot_contents_restore_the_same_store() {
    let mut store = RelayStore::new();
    let bob = Account::generate_with_prekeys(2);
    let id = bob.identity_public();
    let (base, one_time) = split_bundle(&bob);
    store.publish(base, one_time);
    store.enqueue_at([7u8; 32], b"queued".to_vec(), 5).unwrap();

    let (keys, queues) = store.contents();
    assert_eq!(keys.len(), 1);
    assert_eq!(queues, vec![([7u8; 32], vec![(5u64, b"queued".to_vec())])]);
    let mut restored = RelayStore::restore(keys, queues, store.limits());
    assert!(!restored.is_dirty());
    assert_eq!(restored.one_time_remaining(&id), 2);
    let a = store.fetch_bundle(&id).unwrap();
    let b = restored.fetch_bundle(&id).unwrap();
    assert_eq!(a.encode(), b.encode());
    assert_eq!(restored.poll_at(&[7u8; 32], 6), vec![b"queued".to_vec()]);
}

#[test]
fn restore_keeps_the_first_record_per_mailbox() {
    let queues = vec![
        ([3u8; 32], vec![(10u64, b"first".to_vec())]),
        ([4u8; 32], vec![(10u64, b"other".to_vec())]),
        ([3u8; 32], vec![(10u64, b"again".to_vec())]),
    ];
    let mut store = RelayStore::restore(Vec::new(), queues, StoreLimits::default());
    let (_, held) = store.contents();
    assert_eq!(held.len(), 2);
    assert_eq!(store.poll_at(&[3u8; 32], 11), vec![b"first".to_vec()]);
    // The mailbox is drained: a second poll finds nothing.
    assert!(store.poll_at(&[3u8; 32], 11).is_empty());
    assert_eq!(store.poll_at(&[4u8; 32], 11), vec![b"other".to_vec()]);
}

fn percent(s: &str) -> String {
    s.replace('+', "%2B").replace('/', "%2F").replace('=', "%3D")
}

#[test]
fn endpoints_publish_fetch_send_poll() {
    let mut store = RelayStore::new();
    let bob = Account::generate_with_prekeys(1);
    let id = bob.identity_public();
    let (base, one_time) = split_bundle(&bob);
    let req = PublishRequest {
        bundle: b64(&base.encode()),
        one_time: one_time
            .iter()
            .map(|(i, k)| OneTimePrekey { id: *i, public: b64(k) })
            .collect(),
    };
    assert!(handle_publish(&mut store, &req).is_ok());

    let query = format!("identity={}", percent(&b64(&id)));
    match handle_bundle(&mut store, query.as_bytes()) {
        Reply::Bundle(r) => {
            let bytes = unb64(&r.bundle).unwrap();
            let fetched = clarity::wire::PreKeyBundle::decode(&bytes).unwrap();
            assert_eq!(fetched.one_time_prekey_id, Some(one_time[0].0));
        }
        _ => panic!("bundle expected"),
    }
    match handle_bundle(&mut store, format!("identity={}", percent(&b64(&[1u8; 32]))).as_bytes()) {
        Reply::Text(404, t) => assert_eq!(t, "unknown identity"),
        _ => panic!("404 expected"),
    }
    match handle_bundle(&mut store, b"identity=short") {
        Reply::Text(400, t) => assert_eq!(t, "missing identity"),
        _ => panic!("400 expected"),
    }

    let send = SendRequest { recipient: b64(&[2u8; 32]), message: b64(b"sealed") };
    assert!(handle_send(&mut store, &send).is_ok());
    let bad = SendRequest { recipient: "nope".to_string(), message: b64(b"x") };
    assert_eq!(handle_send(&mut store, &bad).unwrap_err().status, 400);
    let mut small = RelayStore::with_limits(StoreLimits { max_message_bytes: 2, ..StoreLimits::default() });
    let big = handle_send(&mut small, &send).unwrap_err();
    assert_eq!((big.status, big.message.as_str()), (413, "message too large"));

    match handle_poll(&mut store, format!("recipient={}", percent(&b64(&[2u8; 32]))).as_bytes()) {
        Reply::Messages(r) => assert_eq!(r.messages, vec![b64(b"sealed")]),
        _ => panic!("messages expected"),
    }
    match handle_poll(&mut store, b"") {
        Reply::Text(400, t) => assert_eq!(t, "missing recipient"),
        _ => panic!("400 expected"),
    }

    let broken = PublishRequest { bundle: b64(b"not a bundle"), one_time: Vec::new() };
    let e = handle_publish(&mut store, &broken).unwrap_err();
    assert_eq!((e.status, e.message.as_str()), (400, "wire encoding error: malformed prekey bundle"));
}

#[test]
fn sealed_envelopes_through_rotating_mailboxes() {
    let mut store = RelayStore::new();
    let alice = Account::generate_with_prekeys(5);
    let mut bob = Account::generate_with_prekeys(5);
    let alice_id = alice.identity_public();
    let bob_id = bob.identity_public();
    let epoch = epoch_for_unix(1_754_000_000);

    let (base, one_time) = split_bundle(&bob);
    store.publish(base, one_time);

    let bundle = store.fetch_bundle(&bob_id).unwrap();
    let mut alice_session = Session::initiate(&alice, &bundle).unwrap();
    let wire = alice_session.encrypt(b"sealed hello").unwrap().encode();
    let blob = seal_envelope(&alice, &bundle.identity_dh, &wire);
    store.enqueue(inbox_id(&bob_id, epoch), blob).unwrap();

    assert!(store.poll(&bob_id).is_empty());
    assert!(store.poll(&inbox_id(&bob_id, epoch + 2)).is_empty());

    let mut envelopes = Vec::new();
    for ib in inbox_window(&bob_id, epoch - 1, epoch + 1) {
        envelopes.extend(store.poll(&ib));
    }
    assert_eq!(envelopes.len(), 1);
    let opened = open_envelope(&bob, &envelopes[0]).unwrap();
    assert_eq!(opened.sender_identity_ed, alice_id);
    let incoming = Message::decode(&opened.payload).unwrap();
    let (mut bob_session, plaintext) = Session::respond(&mut bob, &incoming).unwrap();
    assert_eq!(plaintext, b"sealed hello");

    let reply_wire = bob_session.encrypt(b"sealed reply").unwrap().encode();
    let reply = seal_envelope(&bob, &opened.sender_identity_dh, &reply_wire);
    store.enqueue(inbox_id(&alice_id, epoch), reply).unwrap();

    let mut back = Vec::new();
    for ib in inbox_window(&alice_id, epoch - 1, epoch + 1) {
        back.extend(store.poll(&ib));
    }
    assert_eq!(back.len(), 1);
    let reply_opened = open_envelope(&alice, &back[0]).unwrap();
    let reply_msg = Message::decode(&reply_opened.payload).unwrap();
    assert_eq!(alice_session.decrypt(&reply_msg).unwrap(), b"sealed reply");
}

#[test]
fn only_the_current_snapshot_version_is_read() {
    assert!(snapshot_version_supported(SNAPSHOT_VERSION));
    assert!(!snapshot_version_supported(SNAPSHOT_VERSION + 1));
    assert!(!snapshot_version_supported(0));
}
