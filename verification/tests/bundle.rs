use pathweave::bundle::{fragment_header_overhead, payload_room};
use pathweave::reassembly::{cut_payload, PendingBundle};
use pathweave::{BundleLayer, PathweaveError};

fn deliver(receiver: &mut BundleLayer, frames: &[Vec<u8>]) -> Option<Vec<u8>> {
    let mut out = None;
    for frame in frames {
        if let Some(bytes) = receiver.recv_bytes(frame).unwrap() {
            assert!(out.is_none(), "one message, one delivery");
            out = Some(bytes);
        }
    }
    out
}

#[test]
fn roundtrip_no_fragmentation() {
    let mut sender = BundleLayer::new();
    let mut receiver = BundleLayer::new();

    let frames = sender.send_bytes(b"hello bundle layer", 65535).unwrap();
    assert_eq!(frames.len(), 1);
    let received = deliver(&mut receiver, &frames).unwrap();
    assert_eq!(&received[..], b"hello bundle layer");
}

#[test]
fn fragmentation_and_reassembly() {
    // MTU of 256 forces fragmentation for a 1000-byte payload.
    let mut sender = BundleLayer::new();
    let mut receiver = BundleLayer::new();

    let payload: Vec<u8> = (0u8..=255).cycle().take(1000).collect();
    let frames = sender.send_bytes(&payload, 256).unwrap();
    assert!(frames.len() > 1);
    for frame in &frames {
        assert!(frame.len() <= 256, "every frame fits the MTU");
    }
    let received = deliver(&mut receiver, &frames).unwrap();
    assert_eq!(&received[..], &payload[..]);
}

#[test]
fn multiple_messages_in_sequence() {
    let mut sender = BundleLayer::new();
    let mut receiver = BundleLayer::new();

    for i in 0u8..8 {
        let msg = vec![i; 64];
        let frames = sender.send_bytes(&msg, 65535).unwrap();
        let received = deliver(&mut receiver, &frames).unwrap();
        assert_eq!(&received[..], &msg[..]);
    }
}

#[test]
fn fragments_in_any_order_and_repeated() {
    let mut sender = BundleLayer::new();
    let mut receiver = BundleLayer::new();
    let payload: Vec<u8> = (0u8..=255).cycle().take(3000).collect();
    let mut frames = sender.send_bytes(&payload, 256).unwrap();
    frames.reverse();
    let first = frames[0].clone();
    frames.insert(2, first);
    assert_eq!(deliver(&mut receiver, &frames), Some(payload));
}

#[test]
fn interleaved_messages_do_not_mix() {
    let mut sender = BundleLayer::new();
    let mut receiver = BundleLayer::new();
    let one = vec![1u8; 700];
    let two = vec![2u8; 700];
    let a = sender.send_bytes(&one, 256).unwrap();
    let b = sender.send_bytes(&two, 256).unwrap();
    assert_eq!(a.len(), b.len());
    let mut got = Vec::new();
    for i in 0..a.len() {
        for frame in [&b[i], &a[i]] {
            if let Some(bytes) = receiver.recv_bytes(frame).unwrap() {
                got.push(bytes);
            }
        }
    }
    assert_eq!(got, vec![two, one]);
}

#[test]
fn messages_come_out_in_the_order_of_their_last_frames() {
    let mut sender = BundleLayer::new();
    let mut receiver = BundleLayer::new();
    let one = vec![1u8; 700];
    let two = vec![2u8; 20];
    let three = vec![3u8; 400];
    let mut a = sender.send_bytes(&one, 256).unwrap();
    let b = sender.send_bytes(&two, 256).unwrap();
    let mut c = sender.send_bytes(&three, 256).unwrap();
    assert!(a.len() > 2 && b.len() == 1 && c.len() > 1);
    let (last_a, last_c) = (a.remove(0), c.remove(0));
    let mut arrivals = a;
    arrivals.append(&mut c);
    arrivals.extend([last_c, b[0].clone(), last_a]);
    let got: Vec<Vec<u8>> = arrivals
        .iter()
        .filter_map(|f| receiver.recv_bytes(f).unwrap())
        .collect();
    assert_eq!(got, vec![three, two, one]);
}

#[test]
fn empty_message_roundtrips() {
    let mut sender = BundleLayer::new();
    let mut receiver = BundleLayer::new();
    let frames = sender.send_bytes(b"", 512).unwrap();
    assert_eq!(deliver(&mut receiver, &frames), Some(Vec::new()));
}

#[test]
fn mtu_too_small_for_a_fragment() {
    let mut sender = BundleLayer::new();
    assert!(matches!(
        sender.send_bytes(&[1u8; 100], 10),
        Err(PathweaveError::Bundle(_))
    ));
}

#[test]
fn garbage_is_refused() {
    let mut receiver = BundleLayer::new();
    assert!(matches!(
        receiver.recv_bytes(b"not a bundle"),
        Err(PathweaveError::Bundle(_))
    ));
}

#[test]
fn room_leaves_place_for_the_header() {
    let overhead = fragment_header_overhead(1, 1000);
    assert!(overhead > 0 && overhead < 150);
    let room = payload_room(256, overhead, 1000);
    assert!(room > 0 && room as u128 + overhead <= 257);
}

#[test]
fn overhead_is_never_under() {
    let payload = vec![5u8; 1000];
    let overhead = fragment_header_overhead(0, 1000);
    for mtu in [100, 120, 256, 700] {
        let mut sender = BundleLayer::new();
        let frames = sender.send_bytes(&payload, mtu).unwrap();
        let room = payload_room(mtu, overhead, 1000);
        assert_eq!(frames.len(), (1000 + room - 1) / room);
        for frame in &frames[..frames.len() - 1] {
            assert!(frame.len() as u128 <= overhead + room as u128);
        }
    }
}

#[test]
fn room_is_the_most_that_fits() {
    // An overhead of 40 allows three bytes for a length, so 37 bytes are taken in any case.
    let room = |spare: usize| payload_room(37 + spare, 40, 1000);
    assert_eq!(payload_room(10, 40, 1000), 0);
    assert_eq!(room(0), 0);
    assert_eq!(room(1), 0);
    assert_eq!(room(2), 1);
    assert_eq!(room(24), 23);
    assert_eq!(room(25), 23);
    assert_eq!(room(26), 24);
    assert_eq!(room(257), 255);
    assert_eq!(room(258), 255);
    assert_eq!(room(259), 256);
    assert_eq!(room(65538), 65535);
    assert_eq!(room(65540), 65535);
    assert_eq!(room(65541), 65536);
}

#[test]
fn smallest_limit_with_room_is_used() {
    let payload: Vec<u8> = (0u8..=255).cycle().take(1000).collect();
    // The overhead allows three bytes for the length of a piece; an empty one needs one.
    let empty = (fragment_header_overhead(0, 1000) - 2) as usize;
    assert!(matches!(
        BundleLayer::new().send_bytes(&payload, empty),
        Err(PathweaveError::Bundle(_))
    ));
    for (mtu, pieces) in [(empty + 1, 1000), (empty + 2, 500)] {
        let frames = BundleLayer::new().send_bytes(&payload, mtu).unwrap();
        assert_eq!(frames.len(), pieces);
        assert!(frames.iter().all(|f| f.len() <= mtu));
        let mut receiver = BundleLayer::new();
        assert_eq!(deliver(&mut receiver, &frames).as_ref(), Some(&payload));
    }
}

#[test]
fn pieces_cover_the_payload() {
    let payload: Vec<u8> = (0..10u8).collect();
    let pieces = cut_payload(&payload, 4);
    assert_eq!(
        pieces,
        vec![
            (0, vec![0, 1, 2, 3]),
            (4, vec![4, 5, 6, 7]),
            (8, vec![8, 9])
        ]
    );
}

#[test]
fn pending_bundle_completes_with_the_last_piece() {
    let mut pending = PendingBundle::new(6);
    pending.insert(3, vec![3, 4, 5]);
    assert_eq!(pending.received_len(), 3);
    assert!(!pending.is_complete());
    pending.insert(3, vec![3, 4, 5]);
    assert_eq!(pending.received_len(), 3);
    pending.insert(0, vec![0, 1, 2]);
    assert!(pending.is_complete());
    assert_eq!(pending.reassemble(), vec![0, 1, 2, 3, 4, 5]);
}
