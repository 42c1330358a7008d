use pathweave::addresses::{decode_addr_exchange, encode_addr_exchange, is_addr_exchange};
use pathweave::frame::{
    decode_key_announcement, decode_message, encode_envelope, encode_key_announcement,
    encode_message, encode_relay, validate_key_announcement, Frame, FLAG_ROUTED, FLAG_SEALED,
    MAX_TTL,
};
use pathweave::node::{
    expiry_events, flood_result, reaction_to, Cause, Drain, EventReaction, Handled, Incoming,
    Outgoing, Received,
};
use pathweave::router::new_message_id;
use pathweave::session::seal;
use pathweave::store::{keep_failed, split_expired, PendingStore, Stored};
use pathweave::transport::SocketAddr;
use pathweave::{
    NodeConfig, NodeIdentity, PathweaveError, PathweaveNode, PeerAddress, PeerAnnouncement,
    PeerId, Session, TransportCost, TransportEvent, TransportKind,
};

const MILLI: u128 = 1_000_000;

fn node() -> PathweaveNode {
    PathweaveNode::new(NodeConfig::default(), NodeIdentity::generate())
}

fn id_of(n: &PathweaveNode) -> PeerId {
    *n.peer_id()
}

fn key_of(id: &NodeIdentity) -> [u8; 32] {
    id.public_key().try_into().unwrap()
}

fn ble_ann(addr: &str) -> PeerAnnouncement {
    PeerAnnouncement {
        address: PeerAddress::Ble(addr.into()),
        short_id: None,
    }
}

fn quic_addr(port: u16) -> PeerAddress {
    PeerAddress::Quic(SocketAddr::V4 {
        ip: [127, 0, 0, 1],
        port,
    })
}

fn quic_ann(port: u16) -> PeerAnnouncement {
    PeerAnnouncement {
        address: quic_addr(port),
        short_id: None,
    }
}

/// Runs a transport of this kind on the node.
fn start_transport(n: &mut PathweaveNode, kind: TransportKind) -> usize {
    let at = n.register_transport(kind, TransportCost::Free);
    n.set_transport_status(at, true, TransportCost::Free);
    at
}

/// Runs a handshake from `a` to `b`.
fn establish(a: &mut PathweaveNode, b: &mut PathweaveNode) -> (Session, Session) {
    let key = a.lookup_key(b.peer_id());
    let (mut ha, prefix) = Session::initiate(a.identity(), key).unwrap();
    let mut hb = Session::respond(b.identity(), &prefix).unwrap();
    hb.read(&ha.write().unwrap()).unwrap();
    ha.read(&hb.write().unwrap()).unwrap();
    hb.read(&ha.write().unwrap()).unwrap();
    let sa = ha.finish().unwrap();
    let sb = hb.finish().unwrap();
    a.session_established(&sa);
    b.session_established(&sb);
    (sa, sb)
}

/// Sends a message from `a` to `b` over a session of its own and has `b` handle it.
fn carry(a: &mut PathweaveNode, b: &mut PathweaveNode, msg_id: u64, body: &[u8]) -> Handled {
    let (mut sa, mut sb) = establish(a, b);
    let wire = sa.send(&encode_message(msg_id, body)).unwrap();
    let bytes = sb.recv(&wire).unwrap();
    let now = b.now();
    match b.receive(Incoming::AwaitFirst, sb.peer_id(), &bytes, &vec![], now) {
        (Incoming::AwaitMessage, Received::Message(h)) => h,
        _ => panic!("a message is not an address exchange"),
    }
}

fn is_for(out: &Outgoing, peers: &[PeerId]) -> bool {
    out.to.len() == peers.len() && peers.iter().all(|p| out.to.iter().any(|n| n.0 == *p))
}

/// Has `b` accept all that `a` wants to deliver. Returns the payloads as they arrive.
fn deliver_drain(a: &mut PathweaveNode, b: &mut PathweaveNode, d: Drain) -> Vec<Vec<u8>> {
    let mut arrived = Vec::new();
    let mut results = Vec::new();
    for i in 0..d.entries.len() {
        let (msg_id, body) = d.direct_attempt(i);
        let h = carry(a, b, msg_id, &body);
        arrived.push(h.deliver.expect("a direct message is delivered").1);
        results.push(true);
    }
    a.finish_direct_drain(d, &results);
    arrived
}

#[test]
fn send_to_unknown_peer_returns_no_transport_available() {
    let n = node();
    let unknown_peer = *NodeIdentity::generate().peer_id();
    let result = n.send(unknown_peer, b"hello");
    assert!(matches!(result, Err(PathweaveError::NoTransportAvailable)));
}

#[test]
fn send_to_known_peer_routes_through_transport() {
    let mut a = node();
    let mut b = node();
    let ble = start_transport(&mut a, TransportKind::Ble);
    let pid = id_of(&b);
    a.add_peer(pid, ble_ann("aa:bb:cc:dd:ee:ff"));

    let out = a.send(pid, b"hello node").unwrap();
    assert!(is_for(&out, &[pid]));
    let mut run = a.connect(&out.to[0].1[0]);
    assert_eq!(run.next_candidate().unwrap(), (ble, 0));
    let h = carry(&mut a, &mut b, out.msg_id, &out.body);
    assert_eq!(h.deliver, Some((id_of(&a), b"hello node".to_vec())));
    assert!(h.relay.is_none());
    assert!(h.ack.is_empty());
}

#[test]
fn incoming_message_delivered_to_handler() {
    let mut receiver = node();
    let mut sender = node();
    let mut body = vec![0x00];
    body.extend_from_slice(b"hello from peer");
    let h = carry(&mut sender, &mut receiver, 0x0102030405060708, &body);
    assert_eq!(h.deliver.unwrap().1, b"hello from peer");
}

#[test]
fn connect_learns_and_stores_peer_id() {
    let mut a = node();
    let mut b = node();
    start_transport(&mut a, TransportKind::Ble);
    let ann = ble_ann("aa:bb:cc:dd:ee:ff");
    assert!(a.connect(&ann).next_candidate().is_ok());
    let (session, _) = establish(&mut a, &mut b);
    let peer_id = *session.peer_id();
    assert_eq!(peer_id, id_of(&b));
    a.add_peer(peer_id, ann);
    // The mapping was stored, so that messages can be routed to this peer.
    assert!(a.send(peer_id, b"x").is_ok());
}

#[test]
fn connect_stores_peer_key_in_registry() {
    let mut a = node();
    let mut b = node();
    let (session, _) = establish(&mut a, &mut b);
    let stored = a.lookup_key(session.peer_id()).expect("key is recorded");
    assert_eq!(&stored[..], b.identity().public_key());
}

#[test]
fn connect_no_transport_returns_error() {
    let n = node();
    let result = n.connect(&quic_ann(1234)).next_candidate();
    assert!(matches!(result, Err(PathweaveError::NoTransportAvailable)));
}

#[test]
fn duplicate_message_delivered_only_once() {
    let mut receiver = node();
    let mut sender = node();
    let mut body = vec![0x00];
    body.extend_from_slice(b"hello");
    let mut count = 0;
    for _ in 0..2 {
        let h = carry(&mut sender, &mut receiver, 0xDEADBEEFCAFEBABE, &body);
        if h.deliver.is_some() {
            count += 1;
        }
        assert!(h.ack.is_empty(), "a duplicate is confirmed too");
    }
    assert_eq!(count, 1);
}

#[test]
fn routed_message_delivered_via_relay() {
    let (mut a, mut b, mut c) = (node(), node(), node());
    let (pid_a, pid_b, pid_c) = (id_of(&a), id_of(&b), id_of(&c));
    a.add_peer(pid_b, ble_ann("node-b"));
    b.add_peer(pid_a, ble_ann("node-a"));
    b.add_peer(pid_c, quic_ann(1));
    c.add_peer(pid_b, quic_ann(2));

    let out = a.send_routed(pid_c, b"hello via relay").unwrap();
    assert!(is_for(&out, &[pid_b]));
    let at_b = carry(&mut a, &mut b, out.msg_id, &out.body);
    assert!(at_b.deliver.is_none(), "relay does not deliver");
    let relay = at_b.relay.expect("relayed");
    assert_eq!(relay.msg_id, out.msg_id);
    assert!(is_for(&relay, &[pid_c]), "not back to the sender");
    let at_c = carry(&mut b, &mut c, relay.msg_id, &relay.body);
    assert_eq!(at_c.deliver.unwrap().1, b"hello via relay");
    assert!(at_c.relay.is_none());
}

#[test]
fn key_announcement_propagates_to_indirect_peer() {
    let (mut a, mut b, mut c) = (node(), node(), node());
    let pid_a = id_of(&a);
    let key_a = key_of(a.identity());
    b.add_peer(id_of(&c), quic_ann(1));
    establish(&mut b, &mut c);

    // b meets a: the key is new, so it is flooded to c.
    let (mut hb, prefix) = Session::initiate(b.identity(), None).unwrap();
    let mut ha = Session::respond(a.identity(), &prefix).unwrap();
    ha.read(&hb.write().unwrap()).unwrap();
    hb.read(&ha.write().unwrap()).unwrap();
    ha.read(&hb.write().unwrap()).unwrap();
    let session = hb.finish().unwrap();
    let event = b.session_established(&session).expect("key is new");
    b.add_peer(pid_a, ble_ann("a"));
    match reaction_to(&event, Cause::Own) {
        EventReaction::AnnounceKey {
            peer_id,
            public_key,
        } => {
            assert_eq!(peer_id, pid_a);
            let out = b.flood_key_announcement(&peer_id, &public_key).unwrap();
            assert!(out.to.iter().any(|n| n.0 == id_of(&c)));
            // c has not met a: the key is news there too, but no reason for a fresh announcement.
            let at_c = carry(&mut b, &mut c, out.msg_id, &out.body);
            let event = at_c.event.expect("a key learned by gossip is reported");
            assert!(matches!(
                event,
                TransportEvent::KeyLearned { peer_id, public_key }
                    if peer_id == pid_a && public_key == key_a
            ));
            assert!(matches!(
                reaction_to(&event, Cause::Gossip),
                EventReaction::Nothing
            ));
            // Announced again under another identifier, it is no news.
            let again = b.flood_key_announcement(&peer_id, &public_key).unwrap();
            let at_c = carry(&mut b, &mut c, again.msg_id, &again.body);
            assert!(at_c.event.is_none());
        }
        _ => panic!("a new key is announced"),
    }
    assert_eq!(c.lookup_key(&pid_a), Some(key_a));
    // Learned again, it is no news.
    assert!(b.session_established(&session).is_none());
    assert!(ha.finish().is_ok());
    assert!(a.lookup_key(&id_of(&b)).is_none());
    establish(&mut a, &mut b);
    assert!(a.lookup_key(&id_of(&b)).is_some());
}

#[test]
fn forged_key_announcement_is_rejected() {
    let mut receiver = node();
    let mut sender = node();
    let victim = NodeIdentity::generate();
    let attacker = NodeIdentity::generate();
    let mut body = vec![0x02];
    body.extend_from_slice(victim.peer_id().as_bytes());
    body.extend_from_slice(attacker.public_key());
    body.push(7);
    let h = carry(&mut sender, &mut receiver, 0xDEAD_BEEF_0001_0002, &body);
    assert!(receiver.lookup_key(victim.peer_id()).is_none());
    assert!(h.deliver.is_none() && h.relay.is_none() && h.event.is_none());
}

#[test]
fn key_that_finds_no_room_is_no_news() {
    let config = NodeConfig {
        max_key_registry_size: Some(1),
        ..NodeConfig::default()
    };
    let mut receiver = PathweaveNode::new(config, NodeIdentity::generate());
    let mut sender = node();
    // The sender's own key, shown by the handshake, takes the only place.
    let other = NodeIdentity::generate();
    let body = encode_key_announcement(other.peer_id(), &key_of(&other), 0);
    let h = carry(&mut sender, &mut receiver, new_message_id(), &body);
    assert!(receiver.lookup_key(sender.peer_id()).is_some());
    assert!(receiver.lookup_key(other.peer_id()).is_none());
    assert!(h.event.is_none());
    assert!(h.relay.is_none());
}

#[test]
fn key_without_hops_left_is_news_but_not_passed_on() {
    let (mut sender, mut receiver) = (node(), node());
    receiver.add_peer(id_of(&node()), ble_ann("x"));
    let other = NodeIdentity::generate();
    let body = encode_key_announcement(other.peer_id(), &key_of(&other), 0);
    let h = carry(&mut sender, &mut receiver, new_message_id(), &body);
    assert!(matches!(
        h.event,
        Some(TransportEvent::KeyLearned { peer_id, public_key })
            if peer_id == *other.peer_id() && public_key == key_of(&other)
    ));
    assert!(h.relay.is_none());
}

#[test]
fn routed_message_ttl_zero_dropped_at_relay() {
    let (mut a, mut b, c) = (node(), node(), node());
    let (pid_a, pid_c) = (id_of(&a), id_of(&c));
    b.add_peer(pid_a, ble_ann("a"));
    b.add_peer(pid_c, quic_ann(3));
    let mut body = vec![0x01];
    body.extend_from_slice(pid_c.as_bytes());
    body.push(0);
    body.extend_from_slice(b"drop");
    let h = carry(&mut a, &mut b, new_message_id(), &body);
    assert!(h.relay.is_none() && h.deliver.is_none());
}

#[test]
fn routed_message_deduplicated_across_two_relay_paths() {
    let (mut s1, mut s2, mut c) = (node(), node(), node());
    let msg_id = new_message_id();
    let mut body = vec![0x01];
    body.extend_from_slice(c.peer_id().as_bytes());
    body.push(3);
    body.extend_from_slice(b"dedup test");
    let first = carry(&mut s1, &mut c, msg_id, &body);
    let second = carry(&mut s2, &mut c, msg_id, &body);
    assert_eq!(first.deliver.unwrap().1, b"dedup test");
    assert!(second.deliver.is_none(), "delivered exactly once");
}

#[test]
fn sealed_routed_message_relay_cannot_read_payload() {
    let (mut a, mut b, mut c) = (node(), node(), node());
    let (pid_a, pid_b, pid_c) = (id_of(&a), id_of(&b), id_of(&c));
    a.add_peer(pid_b, ble_ann("node-b"));
    b.add_peer(pid_a, ble_ann("node-a"));
    b.add_peer(pid_c, quic_ann(30));
    c.add_peer(pid_b, quic_ann(31));
    // Both ends know each other's key.
    establish(&mut a, &mut c);

    let out = a.send_routed_sealed(pid_c, b"e2e sealed payload").unwrap();
    assert!(!out
        .body
        .windows(b"e2e sealed payload".len())
        .any(|w| w == b"e2e sealed payload"));
    let at_b = carry(&mut a, &mut b, out.msg_id, &out.body);
    assert!(at_b.deliver.is_none(), "relay never delivers a sealed message");
    let relay = at_b.relay.unwrap();
    assert!(is_for(&relay, &[pid_c]));
    let at_c = carry(&mut b, &mut c, relay.msg_id, &relay.body);
    let (reported_sender, delivered) = at_c.deliver.unwrap();
    assert_eq!(delivered, b"e2e sealed payload");
    assert_eq!(reported_sender, pid_a, "the sender, not the relay");
}

#[test]
fn send_routed_sealed_returns_key_unknown_without_destination_key() {
    let n = node();
    let unknown_dest = *NodeIdentity::generate().peer_id();
    match n.send_routed_sealed(unknown_dest, b"payload") {
        Err(PathweaveError::KeyUnknown(p)) => assert_eq!(p, unknown_dest),
        _ => panic!("expected KeyUnknown"),
    }
}

#[test]
fn payload_too_long_to_seal_is_refused_before_neighbors_matter() {
    let (mut a, mut c) = (node(), node());
    establish(&mut a, &mut c);
    // Nobody to hand anything to: what can be sealed finds no way.
    assert!(matches!(
        a.send_routed_sealed(id_of(&c), b"short"),
        Err(PathweaveError::NoTransportAvailable)
    ));
    assert!(matches!(
        a.send_routed_sealed(id_of(&c), &vec![0; 65488]),
        Err(PathweaveError::Session(_))
    ));
}

#[test]
fn replayed_sealed_message_is_dropped_at_dedup() {
    let mut s = node();
    let mut c = node();
    let key_c = key_of(c.identity());
    let sealed = seal(s.identity(), &key_c, b"replay me").unwrap();
    let envelope = encode_envelope(s.peer_id(), &sealed);
    let body = encode_relay(FLAG_SEALED, c.peer_id(), MAX_TTL, &envelope);
    let msg_id = new_message_id();
    let first = carry(&mut s, &mut c, msg_id, &body);
    let second = carry(&mut s, &mut c, msg_id, &body);
    assert_eq!(first.deliver, Some((id_of(&s), b"replay me".to_vec())));
    assert!(second.deliver.is_none());
}

#[test]
fn sealed_message_from_a_stranger_is_dropped() {
    let stranger = NodeIdentity::generate();
    let mut s = node();
    let mut c = node();
    let sealed = seal(&stranger, &key_of(c.identity()), b"who am I").unwrap();
    let envelope = encode_envelope(stranger.peer_id(), &sealed);
    let body = encode_relay(FLAG_SEALED, c.peer_id(), MAX_TTL, &envelope);
    let h = carry(&mut s, &mut c, new_message_id(), &body);
    assert!(h.deliver.is_none() && h.relay.is_none());
}

#[test]
fn store_forward_delivers_immediately_when_peer_known() {
    let mut sender = node();
    let mut receiver = node();
    let pid = id_of(&receiver);
    sender.add_peer(pid, ble_ann("receiver"));
    let now = sender.now();
    let sf = sender.store_forward(pid, b"immediate".to_vec(), now);
    let out = sf.attempt.expect("the peer is known");
    let h = carry(&mut sender, &mut receiver, out.msg_id, &out.body);
    assert_eq!(h.deliver.unwrap().1, b"immediate");
    assert_eq!(sender.waiting_direct(&pid), 0);
}

#[test]
fn store_forward_queues_and_delivers_on_add_peer() {
    let mut sender = node();
    let mut receiver = node();
    let pid = id_of(&receiver);
    let sf = sender.store_forward(pid, b"queued delivery".to_vec(), 0);
    assert!(sf.attempt.is_none());
    assert!(sender.keep_direct(pid, sf.entry).is_none());
    assert_eq!(sender.waiting_direct(&pid), 1);

    sender.add_peer(pid, ble_ann("receiver"));
    let drain = sender.drain_direct_for_peer(&pid, 1).unwrap();
    assert_eq!(drain.expired, 0);
    assert_eq!(drain.to.len(), 1);
    assert_eq!(
        deliver_drain(&mut sender, &mut receiver, drain),
        vec![b"queued delivery".to_vec()]
    );
    assert_eq!(sender.waiting_direct(&pid), 0);
    assert!(sender.drain_direct_for_peer(&pid, 2).is_none());
}

#[test]
fn store_forward_queues_and_delivers_on_connect() {
    let mut sender = node();
    let mut receiver = node();
    let pid = id_of(&receiver);
    let sf = sender.store_forward(pid, b"connect delivery".to_vec(), 0);
    assert!(sender.keep_direct(pid, sf.entry).is_none());

    // Connecting completes the handshake, records the peer, and delivers what waits for it.
    let at = sender.register_transport(TransportKind::Ble, TransportCost::Free);
    sender.set_transport_status(at, true, TransportCost::Free);
    let mut run = sender.connect(&ble_ann("receiver"));
    assert_eq!(run.next_candidate().unwrap(), (at, 0));
    let (session, _) = establish(&mut sender, &mut receiver);
    assert_eq!(*session.peer_id(), pid);
    sender.add_peer(pid, ble_ann("receiver"));
    let drain = sender.drain_direct_for_peer(&pid, 1).unwrap();
    assert_eq!(
        deliver_drain(&mut sender, &mut receiver, drain),
        vec![b"connect delivery".to_vec()]
    );
    assert_eq!(sender.waiting_direct(&pid), 0);
}

#[test]
fn discovered_peer_gets_what_waits_for_it() {
    let mut sender = node();
    let mut receiver = node();
    let pid = id_of(&receiver);
    let sf = sender.store_forward(pid, b"discovery delivery".to_vec(), 0);
    assert!(sender.keep_direct(pid, sf.entry).is_none());

    establish(&mut sender, &mut receiver);
    let event = sender
        .discovery_answered(pid, ble_ann("receiver"))
        .expect("the peer is new");
    match reaction_to(&event, Cause::Own) {
        EventReaction::Drain(p) => {
            assert_eq!(p, pid);
            let drain = sender.drain_direct_for_peer(&p, 1).unwrap();
            assert_eq!(
                deliver_drain(&mut sender, &mut receiver, drain),
                vec![b"discovery delivery".to_vec()]
            );
        }
        _ => panic!("a connected peer gets what waits for it"),
    }
}

#[test]
fn store_forward_fifo_order_preserved() {
    let mut sender = node();
    let mut receiver = node();
    let pid = id_of(&receiver);
    for payload in [&b"first"[..], b"second", b"third"] {
        let sf = sender.store_forward(pid, payload.to_vec(), 0);
        assert!(sender.keep_direct(pid, sf.entry).is_none());
    }
    sender.add_peer(pid, ble_ann("receiver"));
    let drain = sender.drain_direct_for_peer(&pid, 1).unwrap();
    assert_eq!(
        deliver_drain(&mut sender, &mut receiver, drain),
        vec![b"first".to_vec(), b"second".to_vec(), b"third".to_vec()]
    );
}

#[test]
fn store_forward_fires_store_failed_on_expiry() {
    let config = NodeConfig {
        store_ttl: Some(10 * MILLI),
        ..NodeConfig::default()
    };
    let mut n = PathweaveNode::new(config, NodeIdentity::generate());
    let unknown_peer = *NodeIdentity::generate().peer_id();
    let sf = n.store_forward(unknown_peer, b"will expire".to_vec(), 0);
    n.keep_direct(unknown_peer, sf.entry);
    n.add_peer(unknown_peer, ble_ann("unknown"));
    let drain = n.drain_direct_for_peer(&unknown_peer, 50 * MILLI).unwrap();
    assert!(drain.entries.is_empty());
    let events = expiry_events(drain.peer_id, drain.expired);
    assert_eq!(events.len(), 1);
    assert!(
        matches!(events[0], TransportEvent::StoreFailed { peer_id } if peer_id == unknown_peer)
    );
    assert_eq!(n.waiting_direct(&unknown_peer), 0);
}

#[test]
fn store_forward_queue_depth_bound_drops_overflow_and_delivers_kept_in_fifo_order() {
    let config = NodeConfig {
        max_queue_depth: Some(2),
        ..NodeConfig::default()
    };
    let mut sender = PathweaveNode::new(config, NodeIdentity::generate());
    let mut receiver = node();
    let pid = id_of(&receiver);
    let mut failures = Vec::new();
    for payload in [&b"first"[..], b"second", b"third"] {
        let sf = sender.store_forward(pid, payload.to_vec(), 0);
        failures.extend(sender.keep_direct(pid, sf.entry));
    }
    assert_eq!(sender.waiting_direct(&pid), 2, "queue must be capped");
    assert_eq!(failures.len(), 1);
    assert!(matches!(failures[0], TransportEvent::StoreFailed { peer_id } if peer_id == pid));

    sender.add_peer(pid, ble_ann("receiver"));
    let drain = sender.drain_direct_for_peer(&pid, 1).unwrap();
    let msgs = deliver_drain(&mut sender, &mut receiver, drain);
    assert_eq!(msgs.len(), 2);
    assert_eq!(msgs[0], b"first");
    assert_eq!(msgs[1], b"second");
}

#[test]
fn store_forward_routed_delivers_immediately_when_neighbor_known() {
    let mut a = node();
    let mut b = node();
    let pid_b = id_of(&b);
    let pid_c = *NodeIdentity::generate().peer_id();
    a.add_peer(pid_b, ble_ann("b"));
    let sf = a.store_forward_routed(pid_c, b"routed immediate".to_vec(), 0);
    let out = sf.attempt.expect("there is a neighbor");
    assert!(is_for(&out, &[pid_b]));
    carry(&mut a, &mut b, out.msg_id, &out.body);
    assert!(flood_result(&vec![true]).is_ok());
    assert_eq!(a.waiting_routed(&pid_c), 0);
}

#[test]
fn store_forward_routed_queues_and_delivers_on_peer_added() {
    let mut a = node();
    let mut b = node();
    let pid_b = id_of(&b);
    let pid_c = *NodeIdentity::generate().peer_id();
    let sf = a.store_forward_routed(pid_c, b"routed queued".to_vec(), 0);
    assert!(sf.attempt.is_none());
    assert!(a.keep_routed(pid_c, sf.entry).is_none());
    assert_eq!(a.waiting_routed(&pid_c), 1);

    a.add_peer(pid_b, ble_ann("b"));
    let mut drains = a.drain_routed_all(1);
    assert_eq!(drains.len(), 1);
    let drain = drains.remove(0);
    assert_eq!(drain.peer_id, pid_c);
    assert_eq!(drain.to.len(), 1);
    let (msg_id, body) = drain.routed_attempt(0);
    let h = carry(&mut a, &mut b, msg_id, &body);
    assert!(h.relay.is_some());
    a.finish_routed_drain(drain, &vec![true]);
    assert_eq!(a.waiting_routed(&pid_c), 0);
    assert!(a.drain_routed_all(2).is_empty());
}

#[test]
fn undelivered_payloads_stay_before_newer_ones() {
    let mut a = node();
    let pid = *NodeIdentity::generate().peer_id();
    for payload in [&b"one"[..], b"two", b"three"] {
        let sf = a.store_forward(pid, payload.to_vec(), 0);
        a.keep_direct(pid, sf.entry);
    }
    let drain = a.drain_direct_for_peer(&pid, 1).unwrap();
    assert!(drain.to.is_empty(), "no way to the peer yet");
    let sf = a.store_forward(pid, b"four".to_vec(), 1);
    a.keep_direct(pid, sf.entry);
    // "two" was delivered; of "three" nothing is known, so it stays.
    a.finish_direct_drain(drain, &vec![false, true]);
    let drain = a.drain_direct_for_peer(&pid, 2).unwrap();
    let payloads: Vec<_> = drain.entries.into_iter().map(|e| e.payload).collect();
    assert_eq!(
        payloads,
        vec![b"one".to_vec(), b"three".to_vec(), b"four".to_vec()]
    );
}

#[test]
fn every_attempt_carries_the_same_identifier() {
    let mut a = node();
    let pid = *NodeIdentity::generate().peer_id();
    a.add_peer(pid, ble_ann("x"));
    let sf = a.store_forward(pid, b"again".to_vec(), 0);
    let out = sf.attempt.unwrap();
    a.keep_direct(pid, sf.entry);
    let drain = a.drain_direct_for_peer(&pid, 1).unwrap();
    assert_eq!(drain.direct_attempt(0), (out.msg_id, out.body));
}

#[test]
fn address_exchange_reflects_post_restart_transport_addresses() {
    let initial_addr = quic_addr(4000);
    let post_restart_addr = quic_addr(5000);
    let mut n = node();
    let mut sender = node();
    let (_, session) = establish(&mut sender, &mut n);

    let ask = encode_addr_exchange(&vec![]);
    let mut answer = |addrs: &Vec<PeerAddress>| {
        match n.receive(Incoming::AwaitFirst, session.peer_id(), &ask, addrs, 0) {
            (Incoming::AwaitMessage, Received::Reply(frame)) => {
                decode_addr_exchange(&frame).unwrap()
            }
            _ => panic!("an address exchange is answered"),
        }
    };
    let addrs1 = answer(&vec![initial_addr.clone()]);
    assert!(addrs1.contains(&initial_addr));
    let addrs2 = answer(&vec![post_restart_addr.clone()]);
    assert!(
        !addrs2.contains(&initial_addr),
        "second addr-exchange must not return the stale pre-restart address"
    );
    assert!(addrs2.contains(&post_restart_addr));
}

#[test]
fn address_exchange_only_comes_first() {
    let mut n = node();
    let mut sender = node();
    let (_, session) = establish(&mut sender, &mut n);
    let ask = encode_addr_exchange(&vec![quic_addr(7)]);
    let peer = *session.peer_id();
    let (_, later) = n.receive(Incoming::AwaitMessage, &peer, &ask, &vec![], 0);
    assert!(matches!(later, Received::Message(_)));
    assert!(n.send(peer, b"x").is_err(), "no address was learned");
    n.receive(Incoming::AwaitFirst, &peer, &ask, &vec![], 0);
    let out = n.send(peer, b"x").unwrap();
    assert!(out.to[0].1[0].address == quic_addr(7));
}

#[test]
fn all_address_kinds_survive_the_exchange() {
    let addrs = vec![
        quic_addr(9),
        PeerAddress::Quic(SocketAddr::V6 {
            ip6: [1, 2, 3, 4, 5, 6, 7, 8, 9, 10, 11, 12, 13, 14, 15, 16],
            port: 99,
            flowinfo: 5,
            scope_id: 6,
        }),
        PeerAddress::Ble("aa:bb".into()),
        PeerAddress::WifiDirect("/a/path".into()),
        PeerAddress::BleAdvertising("0011223344556677".into()),
    ];
    let frame = encode_addr_exchange(&addrs);
    assert!(is_addr_exchange(&frame));
    assert_eq!(&frame[..8], &[0, 0, 0, 0, 0, 0, 0, 1]);
    assert!(decode_addr_exchange(&frame).unwrap() == addrs);
    // The same names of different kinds are different addresses.
    assert!(PeerAddress::Ble("x".into()) != PeerAddress::WifiDirect("x".into()));
}

#[test]
fn broken_address_exchange_is_refused() {
    let frame = encode_addr_exchange(&vec![PeerAddress::Ble("aa:bb".into())]);
    assert!(decode_addr_exchange(&frame[..frame.len() - 1]).is_none());
    assert!(decode_addr_exchange(&[]).is_none());
    // A name that is not UTF-8.
    let mut bad = frame.clone();
    *bad.last_mut().unwrap() = 0xff;
    assert!(decode_addr_exchange(&bad).is_none());
    // An entry of a type that is not known is skipped.
    let mut more = encode_addr_exchange(&vec![]);
    more.extend_from_slice(&[0x7f, 1, 0xff]);
    more.extend_from_slice(&frame[8..]);
    assert!(decode_addr_exchange(&more).unwrap() == vec![PeerAddress::Ble("aa:bb".into())]);
}

#[test]
fn stale_key_is_forgotten_once() {
    let mut a = node();
    let mut b = node();
    establish(&mut a, &mut b);
    let pid = id_of(&b);
    assert!(a.lookup_key(&pid).is_some());
    assert!(a.handshake_failed(&pid, true), "tried again without the key");
    assert!(a.lookup_key(&pid).is_none());
    assert!(!a.handshake_failed(&pid, false));
}

#[test]
fn discovered_addresses_are_dialled_once() {
    let mut n = node();
    let addr = quic_addr(1);
    assert!(n.discovered(&addr));
    assert!(!n.discovered(&addr));
    n.discovery_failed(&addr);
    assert!(n.discovered(&addr));
    let own = id_of(&n);
    assert!(n.discovery_answered(own, quic_ann(1)).is_none());
    assert!(n.send(own, b"x").is_err());
}

#[test]
fn departed_address_is_reported_and_dialled_again() {
    let mut n = node();
    let pid = *NodeIdentity::generate().peer_id();
    assert!(n.discovered(&quic_addr(1)));
    assert!(matches!(
        n.discovery_answered(pid, quic_ann(1)),
        Some(TransportEvent::PeerConnected(p)) if p == pid
    ));
    let events = n.departed(&quic_addr(1));
    assert_eq!(events.len(), 1);
    assert!(matches!(events[0], TransportEvent::PeerDisconnected(p) if p == pid));
    assert!(n.departed(&quic_addr(2)).is_empty());
    assert!(n.discovered(&quic_addr(1)));
}

#[test]
fn relay_counts_hops_down() {
    let (mut a, mut b) = (node(), node());
    let pid_c = *NodeIdentity::generate().peer_id();
    let out_of_range = *NodeIdentity::generate().peer_id();
    b.add_peer(out_of_range, quic_ann(5));
    let body = encode_relay(FLAG_ROUTED, &pid_c, 3, b"x");
    let relay = carry(&mut a, &mut b, new_message_id(), &body).relay.unwrap();
    match decode_message(&encode_message(relay.msg_id, &relay.body)) {
        Some((_, Frame::Routed { dest, ttl, payload })) => {
            assert_eq!(dest, pid_c);
            assert_eq!(ttl, 2);
            assert_eq!(payload, b"x");
        }
        _ => panic!("a routed frame stays one"),
    }
}

#[test]
fn frames_decode_as_encoded() {
    let id = *NodeIdentity::generate().peer_id();
    assert!(decode_message(&[0; 7]).is_none());
    assert!(matches!(
        decode_message(&encode_message(5, &[0x09])),
        Some((5, Frame::Unknown))
    ));
    assert!(matches!(
        decode_message(&encode_message(5, &[0x01, 1, 2])),
        Some((5, Frame::Truncated))
    ));
    let body = encode_key_announcement(&id, &[7; 32], 4);
    assert!(matches!(
        decode_message(&encode_message(6, &body)),
        Some((6, Frame::Key { peer, key, ttl: 4 })) if peer == id && key == [7; 32]
    ));
    assert!(decode_key_announcement(&body[1..]) == Some((id, [7; 32], 4)));
    assert!(decode_key_announcement(&body[2..]).is_none());
    let sealed = encode_relay(FLAG_SEALED, &id, 1, &encode_envelope(&id, b"zzz"));
    match decode_message(&encode_message(8, &sealed)) {
        Some((8, Frame::Sealed { sender, sealed, .. })) => {
            assert_eq!(sender, id);
            assert_eq!(sealed, b"zzz");
        }
        _ => panic!("a sealed frame"),
    }
}

#[test]
fn announced_key_must_match_its_peer() {
    let id = NodeIdentity::generate();
    assert!(validate_key_announcement(id.peer_id(), &key_of(&id)));
    assert!(!validate_key_announcement(id.peer_id(), &[1; 32]));
}

#[test]
fn flood_succeeds_with_one_success() {
    assert!(flood_result(&vec![false, true, false]).is_ok());
    assert!(flood_result(&vec![false, false]).is_err());
    assert!(flood_result(&vec![]).is_err());
}

#[test]
fn reactions_to_events() {
    let id = *NodeIdentity::generate().peer_id();
    assert!(matches!(
        reaction_to(&TransportEvent::PeerConnected(id), Cause::Own),
        EventReaction::Drain(p) if p == id
    ));
    assert!(matches!(
        reaction_to(&TransportEvent::PeerDisconnected(id), Cause::Own),
        EventReaction::Nothing
    ));
    assert!(matches!(
        reaction_to(&TransportEvent::StoreFailed { peer_id: id }, Cause::Own),
        EventReaction::Nothing
    ));
}

#[test]
fn store_keeps_queues_apart() {
    let a = *NodeIdentity::generate().peer_id();
    let b = *NodeIdentity::generate().peer_id();
    let entry = |n: u64| Stored {
        msg_id: n,
        payload: vec![n as u8],
        queued_at: n as u128,
    };
    let mut store = PendingStore::new();
    assert!(store.is_empty());
    assert!(store.store(a, entry(1), Some(1)));
    assert!(!store.store(a, entry(2), Some(1)));
    assert!(store.store(b, entry(3), Some(1)));
    assert_eq!(store.destinations().len(), 2);
    assert_eq!(store.depth(&a), 1);
    assert_eq!(store.take(&a).unwrap()[0].msg_id, 1);
    assert!(store.take(&a).is_none());
    store.put_back(a, vec![]);
    assert_eq!(store.destinations(), vec![b]);
}

#[test]
fn expiry_is_exact() {
    let entry = |at: u128| Stored {
        msg_id: 0,
        payload: vec![],
        queued_at: at,
    };
    let (expired, live) = split_expired(vec![entry(0), entry(10), entry(20)], 110, 100);
    assert_eq!(expired, 1);
    assert_eq!(live.len(), 2);
    assert_eq!(keep_failed(live, &vec![true, false])[0].queued_at, 20);
}
