use clarity::identity::Account;
use clarity::mesh::{MeshError, MeshFrame, MeshNode, MeshTransport, Reception, DEFAULT_TTL};
use clarity::session::Session;
use clarity::transport::MessageTransport;
use clarity::wire::Message;

/// Deliver one discrete gossip round over undirected `edges`.
fn gossip_round(nodes: &mut [MeshNode], edges: &[(usize, usize)]) -> usize {
    let outbound: Vec<Vec<MeshFrame>> = nodes.iter().map(|n| n.outbound()).collect();
    let mut accepted = 0;
    for &(a, b) in edges {
        for frame in &outbound[a] {
            if let Reception::Accepted { .. } = nodes[b].handle_incoming(frame.clone()) {
                accepted += 1;
            }
        }
        for frame in &outbound[b] {
            if let Reception::Accepted { .. } = nodes[a].handle_incoming(frame.clone()) {
                accepted += 1;
            }
        }
    }
    accepted
}

fn run_to_quiescence(nodes: &mut [MeshNode], edges: &[(usize, usize)]) {
    for _ in 0..64 {
        if gossip_round(nodes, edges) == 0 {
            break;
        }
    }
}

fn id(n: u8) -> [u8; 32] {
    [n; 32]
}

#[test]
fn delivers_across_multiple_hops() {
    let mut nodes = vec![
        MeshNode::new(id(0)),
        MeshNode::new(id(1)),
        MeshNode::new(id(2)),
        MeshNode::new(id(3)),
    ];
    let edges = [(0, 1), (1, 2), (2, 3)];

    nodes[0].originate(id(3), b"reach the far end".to_vec());
    run_to_quiescence(&mut nodes, &edges);

    assert_eq!(nodes[3].take_inbox(), vec![b"reach the far end".to_vec()]);
    assert!(nodes[1].take_inbox().is_empty());
    assert!(nodes[2].take_inbox().is_empty());
}

#[test]
fn duplicate_frames_are_ignored() {
    let mut node = MeshNode::new(id(9));
    let frame = {
        let mut origin = MeshNode::new(id(1));
        origin.originate(id(9), b"once".to_vec())
    };
    assert!(matches!(
        node.handle_incoming(frame.clone()),
        Reception::Accepted { for_me: true, .. }
    ));
    assert_eq!(node.handle_incoming(frame), Reception::Duplicate);
    assert_eq!(node.take_inbox(), vec![b"once".to_vec()]);
}

#[test]
fn ttl_bounds_reach() {
    let mut nodes = vec![
        MeshNode::with_ttl(id(0), 2),
        MeshNode::with_ttl(id(1), 2),
        MeshNode::with_ttl(id(2), 2),
        MeshNode::with_ttl(id(3), 2),
    ];
    let edges = [(0, 1), (1, 2), (2, 3)];
    nodes[0].originate(id(3), b"too far".to_vec());
    run_to_quiescence(&mut nodes, &edges);
    assert!(nodes[3].take_inbox().is_empty(), "ttl=2 should not reach hop 3");

    let mut nodes = vec![MeshNode::with_ttl(id(0), 2), MeshNode::with_ttl(id(1), 2)];
    let edges = [(0, 1)];
    nodes[0].originate(id(1), b"next door".to_vec());
    run_to_quiescence(&mut nodes, &edges);
    assert_eq!(nodes[1].take_inbox(), vec![b"next door".to_vec()]);
}

#[test]
fn carry_forward_across_a_disconnected_mesh() {
    let mut nodes = vec![MeshNode::new(id(0)), MeshNode::new(id(1)), MeshNode::new(id(2))];

    nodes[0].originate(id(2), b"carried by a courier".to_vec());

    run_to_quiescence(&mut nodes, &[(0, 1)]);
    assert!(nodes[2].take_inbox().is_empty());
    assert!(nodes[1].stored() >= 1, "courier should be carrying the frame");

    run_to_quiescence(&mut nodes, &[(1, 2)]);
    assert_eq!(nodes[2].take_inbox(), vec![b"carried by a courier".to_vec()]);
}

#[test]
fn real_clarity_session_over_the_mesh() {
    let alice = Account::generate_with_prekeys(5);
    let mut bob = Account::generate_with_prekeys(5);
    let bob_id = bob.identity_public();

    let bundle = bob.bundle();
    let mut alice_session = Session::initiate(&alice, &bundle).unwrap();
    let wire = alice_session.encrypt(b"mesh secret").unwrap().encode();

    let mut nodes = vec![
        MeshNode::new(alice.identity_public()),
        MeshNode::new(id(200)),
        MeshNode::new(bob_id),
    ];
    nodes[0].originate(bob_id, wire);
    run_to_quiescence(&mut nodes, &[(0, 1), (1, 2)]);

    assert!(nodes[1].take_inbox().is_empty());

    let inbox = nodes[2].take_inbox();
    assert_eq!(inbox.len(), 1);
    let incoming = Message::decode(&inbox[0]).unwrap();
    let (_bob_session, plaintext) = Session::respond(&mut bob, &incoming).unwrap();
    assert_eq!(plaintext, b"mesh secret");
}

#[test]
fn frame_encode_decode_roundtrip() {
    let mut origin = MeshNode::with_ttl(id(1), DEFAULT_TTL);
    let frame = origin.originate(id(2), b"blob".to_vec());
    let bytes = frame.encode();
    let back = MeshFrame::decode(&bytes).unwrap();
    assert_eq!(frame, back);
}

#[test]
fn frame_layout_and_truncation() {
    let frame = MeshFrame { msg_id: [3u8; 16], recipient: [4u8; 32], ttl: 5, payload: b"xy".to_vec() };
    let bytes = frame.encode();
    // 16 id + 32 recipient + 1 ttl + 8-byte length + payload
    assert_eq!(bytes.len(), 16 + 32 + 1 + 8 + 2);
    assert_eq!(bytes[48], 5);
    for cut in 0..bytes.len() {
        assert!(matches!(MeshFrame::decode(&bytes[..cut]), Err(MeshError::Decode(_))));
    }
}

#[test]
fn forwarded_copy_spends_one_hop() {
    let mut relay = MeshNode::new(id(7));
    let frame = MeshFrame { msg_id: [1u8; 16], recipient: id(9), ttl: 3, payload: b"p".to_vec() };
    assert_eq!(
        relay.handle_incoming(frame.clone()),
        Reception::Accepted { for_me: false, will_forward: true }
    );
    let out = relay.outbound();
    assert_eq!(out.len(), 1);
    assert_eq!(out[0].ttl, 2);
    assert!(relay.take_inbox().is_empty());

    let mut last = MeshNode::new(id(8));
    let spent = MeshFrame { msg_id: [2u8; 16], recipient: id(9), ttl: 0, payload: b"p".to_vec() };
    assert_eq!(
        last.handle_incoming(spent),
        Reception::Accepted { for_me: false, will_forward: false }
    );
    assert_eq!(last.stored(), 0);
}

#[test]
fn mesh_transport_sends_and_ingests() {
    let mut a = MeshTransport::new(MeshNode::new(id(1)));
    let mut b = MeshTransport::new(MeshNode::new(id(2)));
    a.send(&id(2), b"over the air").unwrap();
    let frames = a.pending_broadcast();
    assert_eq!(frames.len(), 1);
    assert!(matches!(b.ingest(&frames[0]), Ok(Reception::Accepted { for_me: true, .. })));
    assert!(matches!(b.ingest(&frames[0]), Ok(Reception::Duplicate)));
    assert!(b.ingest(b"garbage").is_err());
    assert!(b.receive(&id(3)).unwrap().is_empty());
    assert_eq!(b.receive(&id(2)).unwrap(), vec![b"over the air".to_vec()]);
    assert!(b.receive(&id(2)).unwrap().is_empty());
}
