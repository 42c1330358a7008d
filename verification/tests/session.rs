use pathweave::session::{seal, unseal, Handshake};
use pathweave::{BundleLayer, NodeIdentity, PathweaveError, Session};

/// Runs the three messages of a handshake.
fn handshake(
    id_a: &NodeIdentity,
    id_b: &NodeIdentity,
    known: Option<[u8; 32]>,
) -> Result<(Session, Session), PathweaveError> {
    let (mut a, prefix) = Session::initiate(id_a, known)?;
    let mut b = Session::respond(id_b, &prefix)?;
    let m1 = a.write()?;
    b.read(&m1)?;
    let m2 = b.write()?;
    a.read(&m2)?;
    let m3 = a.write()?;
    b.read(&m3)?;
    Ok((a.finish()?, b.finish()?))
}

fn handshaked_pair() -> (Session, Session) {
    let id_a = NodeIdentity::generate();
    let id_b = NodeIdentity::generate();
    handshake(&id_a, &id_b, None).unwrap()
}

fn key_of(id: &NodeIdentity) -> [u8; 32] {
    id.public_key().try_into().unwrap()
}

#[test]
fn handshake_reveals_correct_static_key() {
    let id_a = NodeIdentity::generate();
    let id_b = NodeIdentity::generate();
    let (session_a, session_b) = handshake(&id_a, &id_b, None).unwrap();
    assert_eq!(&session_a.remote_static_key()[..], id_b.public_key());
    assert_eq!(&session_b.remote_static_key()[..], id_a.public_key());
}

#[test]
fn handshake_completes_and_peer_ids_cross() {
    let id_a = NodeIdentity::generate();
    let id_b = NodeIdentity::generate();
    let (session_a, session_b) = handshake(&id_a, &id_b, None).unwrap();
    assert_eq!(session_a.peer_id(), id_b.peer_id());
    assert_eq!(session_b.peer_id(), id_a.peer_id());
}

#[test]
fn xk_handshake_succeeds_with_known_key() {
    let id_a = NodeIdentity::generate();
    let id_b = NodeIdentity::generate();
    let (session_a, session_b) = handshake(&id_a, &id_b, Some(key_of(&id_b))).unwrap();
    assert_eq!(session_a.peer_id(), id_b.peer_id());
    assert_eq!(session_b.peer_id(), id_a.peer_id());
    assert_eq!(&session_a.remote_static_key()[..], id_b.public_key());
    assert_eq!(&session_b.remote_static_key()[..], id_a.public_key());
}

#[test]
fn xk_with_wrong_key_returns_session_error() {
    let id_a = NodeIdentity::generate();
    let id_b = NodeIdentity::generate();
    let id_wrong = NodeIdentity::generate();
    let result = handshake(&id_a, &id_b, Some(key_of(&id_wrong)));
    assert!(
        matches!(result, Err(PathweaveError::Session(_))),
        "XK handshake with wrong key must fail on at least one side"
    );
}

#[test]
fn session_with_an_expected_key_names_it() {
    let (a, b) = (NodeIdentity::generate(), NodeIdentity::generate());
    let (mut ha, prefix) = Session::initiate(&a, Some(key_of(&b))).unwrap();
    let mut hb = Session::respond(&b, &prefix).unwrap();
    hb.read(&ha.write().unwrap()).unwrap();
    // What is refused on the way changes nothing.
    assert!(ha.read(b"not a handshake message").is_err());
    ha.read(&hb.write().unwrap()).unwrap();
    hb.read(&ha.write().unwrap()).unwrap();
    let session = ha.finish().unwrap();
    assert_eq!(*session.remote_static_key(), key_of(&b));
    assert_eq!(session.peer_id(), b.peer_id());
}

#[test]
fn send_recv_encrypts_and_decrypts() {
    let (mut a, mut b) = handshaked_pair();
    let wire = a.send(b"hello pathweave").unwrap();
    assert_ne!(&wire[..], b"hello pathweave");
    let received = b.recv(&wire).unwrap();
    assert_eq!(&received[..], b"hello pathweave");
}

#[test]
fn bidirectional_exchange_works() {
    let (mut a, mut b) = handshaked_pair();
    let wire = a.send(b"ping").unwrap();
    let msg = b.recv(&wire).unwrap();
    assert_eq!(&msg[..], b"ping");
    let wire = b.send(b"pong").unwrap();
    let reply = a.recv(&wire).unwrap();
    assert_eq!(&reply[..], b"pong");
}

#[test]
fn tampered_ciphertext_returns_error() {
    let (mut session_a, mut session_b) = handshaked_pair();
    let mut tampered = session_a.send(b"secret").unwrap();
    tampered[0] ^= 0xff;
    let result = session_b.recv(&tampered);
    assert!(
        matches!(result, Err(PathweaveError::Session(_))),
        "expected session error on tampered ciphertext, got: {result:?}"
    );
}

#[test]
fn no_byte_of_a_message_can_be_changed() {
    let (mut a, mut b) = handshaked_pair();
    let wire = a.send(b"secret").unwrap();
    for i in 0..wire.len() {
        let mut tampered = wire.clone();
        tampered[i] ^= 1;
        assert!(matches!(
            b.recv(&tampered),
            Err(PathweaveError::Session(_))
        ));
    }
    assert!(b.recv(&wire[..wire.len() - 1]).is_err());
    assert_eq!(b.recv(&wire).unwrap(), b"secret");
}

#[test]
fn many_messages_arrive_in_order() {
    let (mut a, mut b) = handshaked_pair();
    for i in 0..20u8 {
        let wire = a.send(&[i; 33]).unwrap();
        assert_eq!(wire.len(), 33 + 16);
        assert_eq!(b.recv(&wire).unwrap(), vec![i; 33]);
    }
}

#[test]
fn oversized_message_is_refused() {
    let (mut a, mut b) = handshaked_pair();
    assert!(a.send(&vec![0u8; 65519]).is_ok());
    assert!(matches!(
        a.send(&vec![0u8; 65520]),
        Err(PathweaveError::Session(_))
    ));
    assert!(matches!(
        b.recv(&vec![0u8; 65536]),
        Err(PathweaveError::Session(_))
    ));
}

#[test]
fn announcement_names_the_pattern() {
    let id_a = NodeIdentity::generate();
    let id_b = NodeIdentity::generate();
    assert_eq!(Session::initiate(&id_a, None).unwrap().1, vec![0x00]);
    assert_eq!(
        Session::initiate(&id_a, Some(key_of(&id_b))).unwrap().1,
        vec![0x01]
    );
}

fn text_of(r: Result<Handshake, PathweaveError>) -> String {
    match r {
        Err(PathweaveError::Session(text)) => text,
        _ => panic!("expected a session error"),
    }
}

#[test]
fn bad_announcement_is_refused() {
    let id = NodeIdentity::generate();
    assert_eq!(
        text_of(Session::respond(&id, &[])),
        "missing protocol prefix byte"
    );
    assert_eq!(
        text_of(Session::respond(&id, &[0x02])),
        "unknown protocol prefix: 0x02"
    );
    assert_eq!(
        text_of(Session::respond(&id, &[0xab])),
        "unknown protocol prefix: 0xab"
    );
}

#[test]
fn unfinished_handshake_gives_no_session() {
    let id = NodeIdentity::generate();
    let (a, _) = Session::initiate(&id, None).unwrap();
    match a.finish() {
        Err(PathweaveError::Session(text)) => {
            assert_eq!(text, "remote static key unavailable after handshake")
        }
        _ => panic!("expected a session error"),
    }
}

#[test]
fn sealed_payload_opens_at_its_destination_only() {
    let sender = NodeIdentity::generate();
    let dest = NodeIdentity::generate();
    let other = NodeIdentity::generate();
    let sealed = seal(&sender, &key_of(&dest), b"for your eyes only").unwrap();
    assert_eq!(sealed.len(), 18 + 48);
    let opened = unseal(&dest, sender.peer_id(), &key_of(&sender), &sealed).unwrap();
    assert_eq!(opened, b"for your eyes only");
    assert!(unseal(&other, sender.peer_id(), &key_of(&sender), &sealed).is_err());
    assert!(unseal(&dest, other.peer_id(), &key_of(&other), &sealed).is_err());
}

#[test]
fn oversized_payload_is_not_sealed() {
    let sender = NodeIdentity::generate();
    let dest = NodeIdentity::generate();
    assert!(seal(&sender, &key_of(&dest), &vec![0u8; 65487]).is_ok());
    assert!(matches!(
        seal(&sender, &key_of(&dest), &vec![0u8; 65488]),
        Err(PathweaveError::Session(_))
    ));
}

fn carry(from: &mut BundleLayer, to: &mut BundleLayer, bytes: &[u8], mtu: usize) -> Vec<u8> {
    let mut out = None;
    for frame in from.send_bytes(bytes, mtu).unwrap() {
        assert!(out.is_none());
        out = to.recv_bytes(&frame).unwrap();
    }
    out.expect("all frames arrived")
}

#[test]
fn handshake_and_message_over_bundles() {
    let id_a = NodeIdentity::generate();
    let id_b = NodeIdentity::generate();
    let mut at_a = BundleLayer::new();
    let mut at_b = BundleLayer::new();
    let mtu = 150;
    let (mut a, prefix) = Session::initiate(&id_a, None).unwrap();
    let prefix = carry(&mut at_a, &mut at_b, &prefix, mtu);
    let mut b = Session::respond(&id_b, &prefix).unwrap();
    let m1 = carry(&mut at_a, &mut at_b, &a.write().unwrap(), mtu);
    b.read(&m1).unwrap();
    let m2 = carry(&mut at_b, &mut at_a, &b.write().unwrap(), mtu);
    a.read(&m2).unwrap();
    let m3 = carry(&mut at_a, &mut at_b, &a.write().unwrap(), mtu);
    b.read(&m3).unwrap();
    let mut a = a.finish().unwrap();
    let mut b = b.finish().unwrap();
    let payload = vec![7u8; 1000];
    let wire = carry(&mut at_a, &mut at_b, &a.send(&payload).unwrap(), mtu);
    assert_eq!(b.recv(&wire).unwrap(), payload);
}
