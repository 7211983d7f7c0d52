use clarity::group::{GroupClient, Group, GroupEvent, Error, MessageKind, encode_store, decode_store, group_event};

/// Deliver `blob` to each member's group and assert what each one observes.
fn deliver(blob: &[u8], to: &mut [(&mut GroupClient, &mut Group)]) -> Vec<GroupEvent> {
    to.iter_mut()
        .map(|(client, group)| group.process(client, blob).expect("process"))
        .collect()
}

#[test]
fn three_member_group_messaging() {
    let mut alice = GroupClient::generate(b"alice").unwrap();
    let mut bob = GroupClient::generate(b"bob").unwrap();
    let mut carol = GroupClient::generate(b"carol").unwrap();

    // Alice creates the group and adds Bob.
    let mut a_group = alice.create_group(b"team-clarity").unwrap();
    let add_bob = a_group.add_member(&mut alice, &bob.key_package().unwrap()).unwrap();
    let mut b_group = bob.join_group(&add_bob.welcome).unwrap();
    assert_eq!(a_group.members().len(), 2);
    assert_eq!(b_group.members().len(), 2);

    // Alice adds Carol; the commit goes to Bob, the welcome to Carol.
    let add_carol = a_group
        .add_member(&mut alice, &carol.key_package().unwrap())
        .unwrap();
    assert_eq!(
        deliver(&add_carol.commit, &mut [(&mut bob, &mut b_group)]),
        vec![GroupEvent::MembershipChanged]
    );
    let mut c_group = carol.join_group(&add_carol.welcome).unwrap();
    assert_eq!(a_group.members().len(), 3);
    assert_eq!(b_group.members().len(), 3);
    assert_eq!(c_group.members().len(), 3);

    // Alice broadcasts; Bob and Carol decrypt, attributing it to Alice.
    let msg = a_group.send(&mut alice, b"ship it").unwrap();
    let events = deliver(&msg, &mut [(&mut bob, &mut b_group), (&mut carol, &mut c_group)]);
    for event in events {
        assert_eq!(
            event,
            GroupEvent::Application {
                sender: b"alice".to_vec(),
                plaintext: b"ship it".to_vec(),
            }
        );
    }

    // Carol replies; Alice and Bob decrypt.
    let reply = c_group.send(&mut carol, b"already shipping").unwrap();
    let events = deliver(&reply, &mut [(&mut alice, &mut a_group), (&mut bob, &mut b_group)]);
    for event in events {
        assert_eq!(
            event,
            GroupEvent::Application {
                sender: b"carol".to_vec(),
                plaintext: b"already shipping".to_vec(),
            }
        );
    }
}

#[test]
fn removed_member_cannot_read_new_messages() {
    let mut alice = GroupClient::generate(b"alice").unwrap();
    let mut bob = GroupClient::generate(b"bob").unwrap();
    let mut carol = GroupClient::generate(b"carol").unwrap();

    let mut a_group = alice.create_group(b"g").unwrap();
    let add_bob = a_group.add_member(&mut alice, &bob.key_package().unwrap()).unwrap();
    let mut b_group = bob.join_group(&add_bob.welcome).unwrap();
    let add_carol = a_group
        .add_member(&mut alice, &carol.key_package().unwrap())
        .unwrap();
    deliver(&add_carol.commit, &mut [(&mut bob, &mut b_group)]);
    let mut c_group = carol.join_group(&add_carol.welcome).unwrap();

    // Alice removes Bob; Carol applies the commit.
    let bob_index = a_group.member_index(b"bob").expect("bob present");
    let remove = a_group.remove_member(&mut alice, bob_index).unwrap();
    assert_eq!(
        deliver(&remove, &mut [(&mut carol, &mut c_group)]),
        vec![GroupEvent::MembershipChanged]
    );
    assert_eq!(a_group.members().len(), 2);
    assert!(!a_group.members().contains(&b"bob".to_vec()));

    // A post-removal message from Alice reaches Carol but NOT Bob: Bob's group
    // can no longer process it (he was removed at the last commit).
    let after = a_group.send(&mut alice, b"members only").unwrap();
    assert_eq!(
        c_group.process(&mut carol, &after).unwrap(),
        GroupEvent::Application {
            sender: b"alice".to_vec(),
            plaintext: b"members only".to_vec(),
        }
    );
    assert!(
        b_group.process(&mut bob, &after).is_err(),
        "removed member must not decrypt post-removal traffic"
    );
}

#[test]
fn client_state_survives_export_import() {
    let mut alice = GroupClient::generate(b"alice").unwrap();
    let mut bob = GroupClient::generate(b"bob").unwrap();

    let mut a_group = alice.create_group(b"persist-me").unwrap();
    let add_bob = a_group.add_member(&mut alice, &bob.key_package().unwrap()).unwrap();
    let mut b_group = bob.join_group(&add_bob.welcome).unwrap();

    // Exchange one message so there is live ratchet state to preserve.
    let m = a_group.send(&mut alice, b"before restart").unwrap();
    assert!(matches!(
        b_group.process(&mut bob, &m).unwrap(),
        GroupEvent::Application { .. }
    ));

    // "Restart" Bob: export his whole client, drop it, import from bytes, and
    // reload the group from his restored store.
    let saved = bob.export_state().unwrap();
    drop(b_group);
    drop(bob);
    let mut bob = GroupClient::import_state(&saved).unwrap();
    assert_eq!(bob.identity(), b"bob");
    let mut b_group = bob
        .load_group(b"persist-me")
        .unwrap()
        .expect("group restored from store");

    // The conversation continues across the restart, both directions.
    let m2 = a_group.send(&mut alice, b"after restart").unwrap();
    assert_eq!(
        b_group.process(&mut bob, &m2).unwrap(),
        GroupEvent::Application {
            sender: b"alice".to_vec(),
            plaintext: b"after restart".to_vec(),
        }
    );
    let back = b_group.send(&mut bob, b"still here").unwrap();
    assert_eq!(
        a_group.process(&mut alice, &back).unwrap(),
        GroupEvent::Application {
            sender: b"bob".to_vec(),
            plaintext: b"still here".to_vec(),
        }
    );
}

#[test]
fn garbage_and_foreign_messages_are_rejected() {
    let mut alice = GroupClient::generate(b"alice").unwrap();
    let mut bob = GroupClient::generate(b"bob").unwrap();
    let mut outsider = GroupClient::generate(b"outsider").unwrap();

    let mut a_group = alice.create_group(b"g").unwrap();
    let add_bob = a_group.add_member(&mut alice, &bob.key_package().unwrap()).unwrap();
    let mut b_group = bob.join_group(&add_bob.welcome).unwrap();

    // Structurally invalid input is rejected at the API boundary, not panicked.
    assert!(b_group.process(&mut bob, b"not an mls message").is_err());
    assert!(b_group.process(&mut bob, &[]).is_err());
    let mut truncated = a_group.send(&mut alice, b"authentic").unwrap();
    truncated.truncate(truncated.len() / 2);
    assert!(b_group.process(&mut bob, &truncated).is_err());

    // An outsider's separate group — same id, different epoch and secrets —
    // cannot inject a message into this group.
    let mut o_group = outsider.create_group(b"g").unwrap();
    let foreign = o_group.send(&mut outsider, b"intrusion").unwrap();
    assert!(b_group.process(&mut bob, &foreign).is_err());

    // And the authentic message it was cloned from still works, proving the
    // rejections above were about validity, not a wedged group.
    let good = a_group.send(&mut alice, b"authentic").unwrap();
    assert_eq!(
        b_group.process(&mut bob, &good).unwrap(),
        GroupEvent::Application {
            sender: b"alice".to_vec(),
            plaintext: b"authentic".to_vec(),
        }
    );
}

#[test]
fn import_refuses_corrupt_state() {
    assert!(matches!(GroupClient::import_state(b""), Err(Error::State)));
    assert!(matches!(GroupClient::import_state(&[1, 0, 0, 0, b'x']), Err(Error::State)));
    let mut alice = GroupClient::generate(b"alice").unwrap();
    let saved = alice.export_state().unwrap();
    assert!(matches!(GroupClient::import_state(&saved[..saved.len() - 1]), Err(Error::State)));
    let mut extra = saved.clone();
    extra.push(0);
    assert!(matches!(GroupClient::import_state(&extra), Err(Error::State)));
    let back = GroupClient::import_state(&saved).unwrap();
    assert_eq!(back.identity(), b"alice");
}

#[test]
fn key_store_codec_round_trips() {
    let entries = vec![(b"k1".to_vec(), b"value".to_vec()), (Vec::new(), b"v".to_vec())];
    let bytes = encode_store(&entries);
    assert_eq!(&bytes[..8], &[2, 0, 0, 0, 2, 0, 0, 0]);
    assert_eq!(decode_store(&bytes), Some(entries));
    assert_eq!(decode_store(&[0, 0, 0, 0]), Some(Vec::new()));
    assert_eq!(decode_store(&bytes[..bytes.len() - 1]), None);
    assert_eq!(decode_store(&[5, 0, 0, 0]), None);
    assert_eq!(decode_store(&[1, 0]), None);
}

#[test]
fn join_refuses_a_non_welcome() {
    let mut alice = GroupClient::generate(b"alice").unwrap();
    let mut bob = GroupClient::generate(b"bob").unwrap();
    let mut a_group = alice.create_group(b"g").unwrap();
    let msg = a_group.send(&mut alice, b"hi").unwrap();
    match bob.join_group(&msg) {
        Err(Error::Mls(m)) => assert_eq!(m, "expected a welcome message"),
        _ => panic!("a non-welcome must be refused"),
    }
    assert!(bob.join_group(b"junk").is_err());
    assert_eq!(a_group.group_id(), b"g".to_vec());
    assert_eq!(a_group.members(), vec![b"alice".to_vec()]);
    assert_eq!(a_group.member_index(b"alice"), Some(0));
    assert_eq!(a_group.member_index(b"zed"), None);
    assert_eq!(Error::UnknownGroup.to_string(), "no such group");
    assert_eq!(Error::State.to_string(), "group state is corrupt or incompatible");
}

#[test]
fn events_name_the_sender_and_the_kind() {
    assert_eq!(
        group_event(Some(b"dana".to_vec()), MessageKind::Application(b"hello".to_vec())),
        GroupEvent::Application { sender: b"dana".to_vec(), plaintext: b"hello".to_vec() }
    );
    assert_eq!(
        group_event(None, MessageKind::Application(b"hello".to_vec())),
        GroupEvent::Application { sender: Vec::new(), plaintext: b"hello".to_vec() }
    );
    assert_eq!(group_event(Some(b"dana".to_vec()), MessageKind::Commit), GroupEvent::MembershipChanged);
    assert_eq!(group_event(None, MessageKind::Proposal), GroupEvent::Proposal);
}

#[test]
fn import_refuses_state_without_its_signing_key() {
    // Three framed fields: identity, a signature public key, an empty store.
    let mut saved = Vec::new();
    saved.extend_from_slice(&1u32.to_le_bytes());
    saved.push(b'x');
    saved.extend_from_slice(&32u32.to_le_bytes());
    saved.extend_from_slice(&[7u8; 32]);
    saved.extend_from_slice(&4u32.to_le_bytes());
    saved.extend_from_slice(&0u32.to_le_bytes());
    assert!(matches!(GroupClient::import_state(&saved), Err(Error::State)));
}

#[test]
fn exported_state_imports_to_the_same_client() {
    let mut alice = GroupClient::generate(b"alice").unwrap();
    let mut group = alice.create_group(b"kept").unwrap();
    group.send(&mut alice, b"warm up").unwrap();
    let saved = alice.export_state().unwrap();
    let back = GroupClient::import_state(&saved).unwrap();
    assert_eq!(back.identity(), b"alice");
    assert_eq!(back.export_state().unwrap().len(), saved.len());
    assert!(back.load_group(b"kept").unwrap().is_some());
}

#[test]
fn import_refuses_a_corrupt_signing_key() {
    let alice = GroupClient::generate(b"alice").unwrap();
    let saved = alice.export_state().unwrap();
    // Split the three framed fields.
    let mut fields: Vec<Vec<u8>> = Vec::new();
    let mut at = 0;
    while at < saved.len() {
        let n = u32::from_le_bytes([saved[at], saved[at + 1], saved[at + 2], saved[at + 3]]) as usize;
        fields.push(saved[at + 4..at + 4 + n].to_vec());
        at += 4 + n;
    }
    assert_eq!(fields.len(), 3);
    // A fresh client's key store holds its signature key pair alone.
    let entries = decode_store(&fields[2]).unwrap();
    assert_eq!(entries.len(), 1);
    let corrupt = vec![(entries[0].0.clone(), b"not a key pair".to_vec())];
    let store = encode_store(&corrupt);
    let mut bytes = Vec::new();
    for f in [&fields[0], &fields[1], &store] {
        bytes.extend_from_slice(&(f.len() as u32).to_le_bytes());
        bytes.extend_from_slice(f);
    }
    assert!(matches!(GroupClient::import_state(&bytes), Err(Error::State)));
}
