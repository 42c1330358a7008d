use pathweave::error::{bundle_error, session_error, transport_error};
use pathweave::identity::peer_id_from_public_key;
use pathweave::registry::{new_key_registry, new_key_registry_with_bound};
use pathweave::{KeyRegistryState, NodeIdentity, PathweaveError, PeerId};

#[test]
fn generate_produces_valid_peer_id() {
    let identity = NodeIdentity::generate();
    let peer_id_str = identity.peer_id().to_base58();
    // blake3 produces 32 bytes; base58 of 32 bytes is 43-44 characters
    assert!(
        peer_id_str.len() == 43 || peer_id_str.len() == 44,
        "unexpected peer id length: {}",
        peer_id_str.len()
    );
}

#[test]
fn from_bytes_roundtrips() {
    let original = NodeIdentity::generate();
    let restored = NodeIdentity::from_bytes(original.private_key_bytes()).unwrap();
    assert_eq!(original.peer_id(), restored.peer_id());
    assert_eq!(original.public_key(), restored.public_key());
}

#[test]
fn peer_id_is_deterministic() {
    let identity = NodeIdentity::generate();
    let a = NodeIdentity::from_bytes(identity.private_key_bytes()).unwrap();
    let b = NodeIdentity::from_bytes(identity.private_key_bytes()).unwrap();
    assert_eq!(a.peer_id(), b.peer_id());
}

#[test]
fn from_bytes_rejects_wrong_length() {
    assert!(matches!(
        NodeIdentity::from_bytes(&[0u8; 31]),
        Err(PathweaveError::InvalidKey)
    ));
    assert!(matches!(
        NodeIdentity::from_bytes(&[0u8; 33]),
        Err(PathweaveError::InvalidKey)
    ));
}

#[test]
fn distinct_identities_have_distinct_peer_ids() {
    let a = NodeIdentity::generate();
    let b = NodeIdentity::generate();
    assert_ne!(a.peer_id(), b.peer_id());
}

#[test]
fn peer_id_is_the_blake3_digest_of_the_key() {
    // The digest of the empty input, from the BLAKE3 test vectors.
    let digest = [
        0xaf, 0x13, 0x49, 0xb9, 0xf5, 0xf9, 0xa1, 0xa6, 0xa0, 0x40, 0x4d, 0xea, 0x36, 0xdc, 0xc9,
        0x49, 0x9b, 0xcb, 0x25, 0xc9, 0xad, 0xc1, 0x12, 0xb7, 0xcc, 0x9a, 0x93, 0xca, 0xe4, 0x1f,
        0x32, 0x62,
    ];
    assert_eq!(peer_id_from_public_key(&[]).as_bytes(), &digest);
}

#[test]
fn base58_of_known_bytes() {
    // Every leading zero byte is written as one `1`.
    assert_eq!(
        PeerId::from_bytes([0u8; 32]).to_base58(),
        "11111111111111111111111111111111"
    );
    let mut one = [0u8; 32];
    one[31] = 1;
    assert_eq!(
        PeerId::from_bytes(one).to_base58(),
        "11111111111111111111111111111112"
    );
    assert_eq!(
        PeerId::from_bytes([0xff; 32]).to_base58(),
        "JEKNVnkbo3jma5nREBBJCDoXFVeKkD56V3xKrvRmWxFG"
    );
    let mut counting = [0u8; 32];
    for i in 0..32u8 {
        counting[i as usize] = i;
    }
    assert_eq!(
        PeerId::from_bytes(counting).to_base58(),
        "1thX6LZfHDZZKUs92febYZhYRcXddmzfzF2NvTkPNE"
    );
}

#[test]
fn base58_is_unambiguous() {
    let (a, b) = (dummy_peer_id(), dummy_peer_id());
    assert_ne!(a.to_base58(), b.to_base58());
    let text = a.to_base58();
    assert!(text.len() >= 32 && text.len() <= 44);
    assert!(text
        .chars()
        .all(|c| c.is_ascii_alphanumeric() && !"0OIl".contains(c)));
}

#[test]
fn public_key_of_known_private_key() {
    // RFC 7748, section 6.1: the key pair of Alice.
    let private = [
        0x77, 0x07, 0x6d, 0x0a, 0x73, 0x18, 0xa5, 0x7d, 0x3c, 0x16, 0xc1, 0x72, 0x51, 0xb2, 0x66,
        0x45, 0xdf, 0x4c, 0x2f, 0x87, 0xeb, 0xc0, 0x99, 0x2a, 0xb1, 0x77, 0xfb, 0xa5, 0x1d, 0xb9,
        0x2c, 0x2a,
    ];
    let public = [
        0x85, 0x20, 0xf0, 0x09, 0x89, 0x30, 0xa7, 0x54, 0x74, 0x8b, 0x7d, 0xdc, 0xb4, 0x3e, 0xf7,
        0x5a, 0x0d, 0xbf, 0x3a, 0x0d, 0x26, 0x38, 0x1a, 0xf4, 0xeb, 0xa4, 0xa9, 0x8e, 0xaa, 0x9b,
        0x4e, 0x6a,
    ];
    let identity = NodeIdentity::from_bytes(&private).unwrap();
    assert_eq!(identity.public_key(), &public);
    assert_eq!(identity.private_key_bytes(), &private);
    assert_eq!(*identity.peer_id(), peer_id_from_public_key(&public));
}

#[test]
fn error_messages() {
    assert_eq!(
        PathweaveError::NoTransportAvailable.message(),
        "no transport available to reach peer"
    );
    assert_eq!(
        PathweaveError::DeliveryFailed.message(),
        "delivery failed: all retry attempts exhausted without confirmation"
    );
    assert_eq!(transport_error("x").message(), "transport error: x");
    assert_eq!(session_error("x").message(), "session error: x");
    assert_eq!(bundle_error("x").message(), "bundle error: x");
    assert_eq!(PathweaveError::InvalidKey.message(), "invalid key material");
    assert_eq!(
        PathweaveError::KeyUnknown(PeerId::from_bytes([0u8; 32])).message(),
        "no known key for destination 11111111111111111111111111111111"
    );
    assert_eq!(PathweaveError::Io(String::from("gone")).message(), "gone");
}

fn dummy_key(byte: u8) -> [u8; 32] {
    [byte; 32]
}

fn dummy_peer_id() -> PeerId {
    *NodeIdentity::generate().peer_id()
}

#[test]
fn gossip_entries_evict_oldest_first_without_bound_overflow() {
    let mut registry = KeyRegistryState::new(Some(2));
    let p1 = dummy_peer_id();
    let p2 = dummy_peer_id();
    let p3 = dummy_peer_id();

    registry.insert_gossip(p1, dummy_key(1));
    registry.insert_gossip(p2, dummy_key(2));
    // At capacity (2). p1 is the oldest gossip entry and must be evicted to make
    // room for p3.
    registry.insert_gossip(p3, dummy_key(3));

    assert_eq!(
        registry.get(&p1),
        None,
        "oldest gossip entry must be evicted"
    );
    assert_eq!(registry.get(&p2), Some(dummy_key(2)));
    assert_eq!(registry.get(&p3), Some(dummy_key(3)));
}

#[test]
fn direct_handshake_entry_is_never_evicted_by_gossip() {
    let mut registry = KeyRegistryState::new(Some(1));
    let direct_peer = dummy_peer_id();
    let gossip_peer = dummy_peer_id();

    registry.insert_direct(direct_peer, dummy_key(1));
    // At capacity (1), and the only entry is direct, not gossip-learned: the new
    // gossip key must be dropped, not evict the direct entry.
    registry.insert_gossip(gossip_peer, dummy_key(2));

    assert_eq!(registry.get(&direct_peer), Some(dummy_key(1)));
    assert_eq!(
        registry.get(&gossip_peer),
        None,
        "gossip-learned key must be dropped when only directly-handshaked entries exist to evict"
    );
}

#[test]
fn direct_handshake_promotes_a_previously_gossip_learned_entry() {
    let mut registry = KeyRegistryState::new(Some(1));
    let peer = dummy_peer_id();
    let other = dummy_peer_id();

    registry.insert_gossip(peer, dummy_key(1));
    // A real handshake with the same peer now confirms the key directly; it must
    // no longer be eligible for gossip eviction.
    registry.insert_direct(peer, dummy_key(1));

    // At capacity (1) with the only entry now direct: a new gossip key must be
    // dropped rather than evicting the promoted entry.
    registry.insert_gossip(other, dummy_key(2));

    assert_eq!(registry.get(&peer), Some(dummy_key(1)));
    assert_eq!(registry.get(&other), None);
}

#[test]
fn unbounded_registry_never_evicts() {
    let mut registry = KeyRegistryState::new(None);
    let peers: Vec<PeerId> = (0..50u8)
        .map(|i| {
            let peer_id = dummy_peer_id();
            registry.insert_gossip(peer_id, dummy_key(i));
            peer_id
        })
        .collect();

    for (i, peer_id) in peers.iter().enumerate() {
        assert_eq!(
            registry.get(peer_id),
            Some(dummy_key(i as u8)),
            "no entry should be evicted when max_size is None"
        );
    }
}

#[test]
fn insert_direct_reports_new_keys_only() {
    let mut registry = new_key_registry();
    let peer = dummy_peer_id();
    assert!(registry.insert_direct(peer, dummy_key(1)));
    assert!(!registry.insert_direct(peer, dummy_key(1)));
    assert_eq!(registry.remove(&peer), Some(dummy_key(1)));
    assert_eq!(registry.remove(&peer), None);
    assert!(registry.insert_direct(peer, dummy_key(2)));
}

#[test]
fn direct_keys_may_exceed_the_bound() {
    let mut registry = new_key_registry_with_bound(Some(1));
    let a = dummy_peer_id();
    let b = dummy_peer_id();
    registry.insert_direct(a, dummy_key(1));
    registry.insert_direct(b, dummy_key(2));
    assert_eq!(registry.get(&a), Some(dummy_key(1)));
    assert_eq!(registry.get(&b), Some(dummy_key(2)));
}

#[test]
fn gossip_about_a_known_peer_keeps_its_place() {
    let mut registry = KeyRegistryState::new(Some(2));
    let p1 = dummy_peer_id();
    let p2 = dummy_peer_id();
    registry.insert_gossip(p1, dummy_key(1));
    registry.insert_gossip(p2, dummy_key(2));
    registry.insert_gossip(p1, dummy_key(1));
    registry.insert_gossip(dummy_peer_id(), dummy_key(3));
    assert_eq!(registry.get(&p1), None, "p1 is still the oldest");
    assert_eq!(registry.get(&p2), Some(dummy_key(2)));
}

#[test]
fn gossip_never_overwrites_a_key() {
    let mut registry = new_key_registry();
    let (gossiped, met) = (dummy_peer_id(), dummy_peer_id());
    registry.insert_gossip(gossiped, dummy_key(1));
    registry.insert_direct(met, dummy_key(2));
    registry.insert_gossip(gossiped, dummy_key(3));
    registry.insert_gossip(met, dummy_key(4));
    assert_eq!(registry.get(&gossiped), Some(dummy_key(1)));
    assert_eq!(registry.get(&met), Some(dummy_key(2)));
}

#[test]
fn keys_are_32_bytes_long() {
    let fresh = NodeIdentity::generate();
    assert_eq!(fresh.private_key_bytes().len(), 32);
    assert_eq!(fresh.public_key().len(), 32);
    let restored = NodeIdentity::from_bytes(&[7; 32]).unwrap();
    assert_eq!(restored.public_key().len(), 32);
}
