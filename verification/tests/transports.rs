use std::collections::hash_map::DefaultHasher;
use std::hash::{Hash, Hasher};

use pathweave::advertising::{
    decode_header, encode_header, encode_packet, hash_payload, unwrap_packet, wrap_packet,
};
use pathweave::ble::{
    decode_service_data, encode_service_data, find_characteristics, scanned_peer, uuid_to_guid,
    write_type, PeripheralLoop, ScanEvent, SubscribeAction, WriteAction, WriteType,
    NOTIFY_CHAR_UUID, PATHWEAVE_SERVICE_UUID, WRITE_CHAR_UUID,
};
use pathweave::hex::{hex_to_short_id, short_id, short_id_to_hex, to_hex};
use pathweave::quic::{
    cost_code, cost_from_code, decode_frame, detect_network_cost, encode_frame, frame_len,
    instance_name_from, interfaces_cost, plan_cost, ConnectionPlan, InterfaceKind, MdnsBridge,
};
use pathweave::transport::SocketAddr;
use pathweave::wifi_direct::{
    client_dials, enumerated_peer, extract_go_ip, found_peer, go_intent, go_ip_key, is_group_owner,
    own_device_name, parse_short_id_from_service_name, waits_for_client,
};
use pathweave::{
    BleAdvertisingTransport, BleTransport, BundleLayer, NodeIdentity, PathweaveError, PeerAddress,
    PeerAnnouncement, PeerId, QuicTransport, Session, TransportCost, TransportKind,
    WifiDirectTransport,
};

fn text_of<T>(r: Result<T, PathweaveError>) -> String {
    match r {
        Err(PathweaveError::Transport(text)) => text,
        _ => panic!("expected a transport error"),
    }
}

fn announce(address: PeerAddress) -> PeerAnnouncement {
    PeerAnnouncement {
        address,
        short_id: None,
    }
}

fn loopback(port: u16) -> SocketAddr {
    SocketAddr::V4 {
        ip: [127, 0, 0, 1],
        port,
    }
}

/// A peer identifier with a short identifier that is easy to read.
fn known_id() -> PeerId {
    let mut bytes = [0u8; 32];
    for (i, b) in bytes.iter_mut().enumerate() {
        *b = i as u8;
    }
    PeerId::from_bytes(bytes)
}

// Advertising medium

#[test]
fn header_roundtrips() {
    let dest = [1u8; 8];
    let source = [2u8; 8];
    let header = encode_header(dest, source);
    let bytes = [&header[..], b"hello"].concat();
    let (d, s, payload) = decode_header(&bytes).unwrap();
    assert_eq!(d, dest);
    assert_eq!(s, source);
    assert_eq!(payload, b"hello");
}

#[test]
fn short_packet_has_no_header() {
    assert!(decode_header(&[0; 15]).is_none());
    let (_, _, payload) = decode_header(&[0; 16]).unwrap();
    assert!(payload.is_empty());
}

#[test]
fn short_id_hex_roundtrips() {
    let id = [0xde, 0xad, 0xbe, 0xef, 0x01, 0x02, 0x03, 0x04];
    let hex = short_id_to_hex(id);
    assert_eq!(hex_to_short_id(&hex), Some(id));
}

#[test]
fn hex_is_read_and_written_exactly() {
    assert_eq!(
        short_id_to_hex([0xde, 0xad, 0xbe, 0xef, 0x01, 0x02, 0x03, 0x04]),
        "deadbeef01020304"
    );
    assert_eq!(to_hex(&[]), "");
    assert_eq!(to_hex(&[0x0f, 0xf0]), "0ff0");
    assert_eq!(
        hex_to_short_id("DEADbeef01020304"),
        Some([0xde, 0xad, 0xbe, 0xef, 1, 2, 3, 4])
    );
    assert_eq!(hex_to_short_id("deadbeef0102030"), None);
    assert_eq!(hex_to_short_id("deadbeef010203045"), None);
    assert_eq!(hex_to_short_id("deadbeefg1020304"), None);
    assert_eq!(hex_to_short_id("+1+1+1+1+1+1+1+1"), None);
    assert_eq!(hex_to_short_id("deadbeef010203+4"), None);
    assert_eq!(hex_to_short_id("\u{e9}adbeef0102030"), None);
    assert_eq!(short_id(&known_id()), [0, 1, 2, 3, 4, 5, 6, 7]);
}

#[test]
fn two_transports_exchange_payload_via_mock_medium() {
    let a_id = NodeIdentity::generate();
    let b_id = NodeIdentity::generate();
    let mut a = BleAdvertisingTransport::new();
    let mut b = BleAdvertisingTransport::new();
    a.start(a_id.peer_id());
    b.start(b_id.peer_id());

    let b_short_id = short_id(b_id.peer_id());
    let (local, remote) = a
        .connect(&announce(PeerAddress::BleAdvertising(short_id_to_hex(
            b_short_id,
        ))))
        .unwrap();
    let packet = encode_packet(remote, local, b"hello from a");
    let heard = b.observe(&packet, 0).delivery.unwrap();
    assert_eq!(heard.payload, b"hello from a");
    assert_eq!(heard.source, short_id(a_id.peer_id()));
    assert!(heard.opens, "the first packet opens the connection");
    let packet = encode_packet(remote, local, b"more");
    assert!(!b.observe(&packet, 1).delivery.unwrap().opens);
}

#[test]
fn packet_addressed_to_someone_else_is_dropped() {
    let a_id = NodeIdentity::generate();
    let b_id = NodeIdentity::generate();
    let someone_else_short_id = [0xffu8; 8];
    let mut a = BleAdvertisingTransport::new();
    let mut b = BleAdvertisingTransport::new();
    a.start(a_id.peer_id());
    b.start(b_id.peer_id());
    let (local, remote) = a
        .connect(&announce(PeerAddress::BleAdvertising(short_id_to_hex(
            someone_else_short_id,
        ))))
        .unwrap();
    let packet = encode_packet(remote, local, b"not for b");
    assert!(
        b.observe(&packet, 0).delivery.is_none(),
        "b must not observe a packet addressed to someone else"
    );
}

#[test]
fn discover_emits_announcement_for_observed_peer() {
    let a_id = NodeIdentity::generate();
    let b_id = NodeIdentity::generate();
    let mut b = BleAdvertisingTransport::new();
    b.start(b_id.peer_id());
    let a_short_id = short_id(a_id.peer_id());
    let packet = encode_packet(short_id(b_id.peer_id()), a_short_id, b"hi");
    let announcement = b.observe(&packet, 0).announcement.unwrap();
    assert_eq!(announcement.short_id, Some(a_short_id));
    assert!(announcement.address == PeerAddress::BleAdvertising(short_id_to_hex(a_short_id)));
}

#[test]
fn repeated_and_own_packets_are_not_heard() {
    let b_id = NodeIdentity::generate();
    let local = short_id(b_id.peer_id());
    let mut b = BleAdvertisingTransport::new();
    b.start(b_id.peer_id());
    let packet = encode_packet(local, [9; 8], b"once");
    assert!(b.observe(&packet, 0).delivery.is_some());
    let again = b.observe(&packet, 1_999_999_999);
    assert!(again.delivery.is_none() && again.announcement.is_none());
    assert!(b.observe(&packet, 2_000_000_000).delivery.is_some());
    let own = b.observe(&encode_packet(local, local, b"echo"), 0);
    assert!(own.delivery.is_none() && own.announcement.is_none());
    let short = b.observe(&[1, 2, 3], 0);
    assert!(short.delivery.is_none() && short.announcement.is_none());
}

#[test]
fn payload_is_hashed_with_its_length() {
    for payload in [&b""[..], b"hi", &[0; 8], &[7; 150]] {
        let mut hasher = DefaultHasher::new();
        payload.hash(&mut hasher);
        assert_eq!(hash_payload(payload), hasher.finish());
    }
    assert_ne!(hash_payload(&[0]), hash_payload(&[0, 0]));
}

#[test]
fn packet_for_another_node_does_not_hide_one_for_this() {
    let mut b = BleAdvertisingTransport::new();
    b.start(&known_id());
    let local = short_id(&known_id());
    let source = [0x11; 8];
    let for_other = b.observe(&encode_packet([9; 8], source, b"hi"), 0);
    assert!(for_other.delivery.is_none());
    let heard = b
        .observe(&encode_packet(local, source, b"hi"), 1)
        .delivery
        .unwrap();
    assert_eq!(heard.source, source);
    assert_eq!(heard.payload, b"hi");
    assert!(heard.opens);
    assert!(b
        .observe(&encode_packet(local, source, b"hi"), 2)
        .delivery
        .is_none());
}

#[test]
fn advertising_transport_errors() {
    let mut t = BleAdvertisingTransport::new();
    let peer = announce(PeerAddress::BleAdvertising("0001020304050607".into()));
    assert_eq!(text_of(t.connect(&peer)), "transport not started");
    assert_eq!(
        text_of(t.connect(&announce(PeerAddress::Ble("x".into())))),
        "expected BLE advertising address"
    );
    assert_eq!(
        text_of(t.connect(&announce(PeerAddress::BleAdvertising("zz".into())))),
        "malformed BLE advertising short_id"
    );
    assert!(t.local_addresses().is_empty());
    assert_eq!(t.now(), 0, "no time passes before the start");
    t.start(&known_id());
    assert!(
        t.local_addresses() == vec![PeerAddress::BleAdvertising("0001020304050607".into())]
    );
    assert_eq!(t.connect(&peer).unwrap().1, [0, 1, 2, 3, 4, 5, 6, 7]);
    t.stop();
    assert_eq!(text_of(t.connect(&peer)), "transport not started");
    assert_eq!(t.mtu_hint(), 150);
    assert_eq!(t.cost(), TransportCost::Free);
    assert_eq!(t.kind(), TransportKind::BleAdvertising);
}

#[test]
fn packets_are_marked() {
    assert_eq!(wrap_packet(&[1, 2]), vec![0xC0, 1, 2]);
    assert_eq!(unwrap_packet(&[0xC0, 1, 2]), Some(vec![1, 2]));
    assert_eq!(unwrap_packet(&[0xC1, 1, 2]), None);
    assert_eq!(unwrap_packet(&[]), None);
}

#[test]
fn payload_hash_depends_on_the_payload() {
    assert_eq!(hash_payload(b"abc"), hash_payload(b"abc"));
    assert_ne!(hash_payload(b"abc"), hash_payload(b"abd"));
}

// Bluetooth

#[test]
fn wrong_address_type_returns_error() {
    let transport = BleTransport::new();
    let peer = announce(PeerAddress::Quic(loopback(1234)));
    let result = transport.connect(&peer, &vec![]);
    assert!(matches!(result, Err(PathweaveError::Transport(_))));
}

#[test]
fn connect_before_start_returns_error() {
    let transport = BleTransport::new();
    let peer = announce(PeerAddress::Ble("some-peripheral-id".into()));
    let result = transport.connect(&peer, &vec![]);
    assert!(matches!(result, Err(PathweaveError::Transport(_))));
}

#[test]
fn accept_before_start_returns_error() {
    let transport = BleTransport::new();
    assert!(matches!(
        transport.accept_error(),
        PathweaveError::Transport(_)
    ));
}

#[test]
fn ble_transport_finds_its_peer() {
    let mut t = BleTransport::new();
    assert_eq!(text_of(t.start(0)), "no Bluetooth adapter found");
    assert_eq!(t.start(2).unwrap(), 0);
    let devices = vec!["a".to_string(), "b".to_string()];
    assert_eq!(
        t.connect(&announce(PeerAddress::Ble("b".into())), &devices)
            .unwrap(),
        1
    );
    assert_eq!(
        text_of(t.connect(&announce(PeerAddress::Ble("c".into())), &devices)),
        "BLE peer c not in scan cache; discover() must complete first"
    );
    assert!(
        matches!(t.accept_error(), PathweaveError::Transport(m) if m == "peripheral loop ended")
    );
    t.stop();
    assert_eq!(
        text_of(t.connect(&announce(PeerAddress::Ble("b".into())), &devices)),
        "transport not started"
    );
    assert_eq!(t.mtu_hint(), 512);
    assert_eq!(t.cost(), TransportCost::Free);
    assert_eq!(t.kind(), TransportKind::Ble);
}

#[test]
fn service_data_roundtrips() {
    let data = encode_service_data(&known_id());
    assert_eq!(data, vec![1, 0, 1, 2, 3, 4, 5, 6, 7]);
    assert_eq!(decode_service_data(&data), Some([0, 1, 2, 3, 4, 5, 6, 7]));
    assert_eq!(decode_service_data(&data[..8]), None);
    assert_eq!(decode_service_data(&[2, 0, 1, 2, 3, 4, 5, 6, 7]), None);
}

#[test]
fn scan_events_announce_peers() {
    let found = scanned_peer(ScanEvent::ServiceData {
        device: "d".into(),
        data: Some(encode_service_data(&known_id())),
    })
    .unwrap();
    assert!(found.address == PeerAddress::Ble("d".into()));
    assert_eq!(found.short_id, Some([0, 1, 2, 3, 4, 5, 6, 7]));
    assert!(scanned_peer(ScanEvent::ServiceData {
        device: "d".into(),
        data: None
    })
    .is_none());
    let found = scanned_peer(ScanEvent::Services {
        identifier: "e".into(),
        services: vec![7, PATHWEAVE_SERVICE_UUID],
    })
    .unwrap();
    assert!(found.address == PeerAddress::Ble("e".into()));
    assert_eq!(found.short_id, None);
    assert!(scanned_peer(ScanEvent::Services {
        identifier: "e".into(),
        services: vec![7]
    })
    .is_none());
    assert!(scanned_peer(ScanEvent::Other).is_none());
}

#[test]
fn characteristics_are_found_by_identifier() {
    let both = vec![5, NOTIFY_CHAR_UUID, WRITE_CHAR_UUID];
    assert_eq!(find_characteristics(&both).unwrap(), (2, 1));
    assert_eq!(
        text_of(find_characteristics(&vec![NOTIFY_CHAR_UUID])),
        "write characteristic not found"
    );
    assert_eq!(
        text_of(find_characteristics(&vec![WRITE_CHAR_UUID])),
        "notify characteristic not found"
    );
    assert_eq!(write_type(true), WriteType::WithoutResponse);
    assert_eq!(write_type(false), WriteType::WithResponse);
}

#[test]
fn guid_of_the_service() {
    let g = uuid_to_guid(PATHWEAVE_SERVICE_UUID);
    assert_eq!(g.data1, 0x82dfc0ba);
    assert_eq!(g.data2, 0xe2b5);
    assert_eq!(g.data3, 0x4e65);
    assert_eq!(g.data4, 0xad11c7238ca545c9);
    let whole = ((g.data1 as u128) << 96)
        | ((g.data2 as u128) << 80)
        | ((g.data3 as u128) << 64)
        | g.data4 as u128;
    assert_eq!(whole, PATHWEAVE_SERVICE_UUID);
}

#[test]
fn peripheral_serves_one_subscriber() {
    let mut p = PeripheralLoop::new();
    assert_eq!(p.written(), WriteAction::Discard);
    assert!(!p.takes_replies());
    assert_eq!(p.subscribed(true), SubscribeAction::Open);
    assert_eq!(p.written(), WriteAction::Forward);
    assert_eq!(p.subscribed(true), SubscribeAction::Ignore);
    assert_eq!(p.subscribed(false), SubscribeAction::Open);
    p.connection_closed();
    assert_eq!(p.written(), WriteAction::Discard);
    assert!(p.takes_replies());
    p.notify_failed();
    assert!(!p.takes_replies());
    assert_eq!(p.subscribed(true), SubscribeAction::Open);
}

// QUIC

#[test]
fn lib_wrong_address_type_returns_error() {
    let transport = QuicTransport::new(loopback(0));
    let peer = announce(PeerAddress::Ble("AA:BB:CC:DD:EE:FF".into()));
    let result = transport.connect(&peer);
    assert!(matches!(result, Err(PathweaveError::Transport(_))));
}

#[test]
fn lib_accept_before_start_returns_error() {
    let transport = QuicTransport::new(loopback(0));
    let result = transport.accept();
    assert!(matches!(result, Err(PathweaveError::Transport(_))));
}

/// Carries bytes through bundles and a framed byte stream.
fn carry(from: &mut BundleLayer, to: &mut BundleLayer, bytes: &[u8], mtu: usize) -> Vec<u8> {
    let mut stream = Vec::new();
    for frame in from.send_bytes(bytes, mtu).unwrap() {
        stream.extend(encode_frame(&frame));
    }
    let mut out = None;
    while let Some(frame) = decode_frame(&stream) {
        stream.drain(..4 + frame.len());
        out = to.recv_bytes(&frame).unwrap();
    }
    assert!(stream.is_empty());
    out.unwrap()
}

#[test]
fn full_stack_roundtrip() {
    let mut server = QuicTransport::new(loopback(0));
    server.start(loopback(9000), TransportCost::Free);
    let server_addr = server.local_addr().unwrap();
    let client = QuicTransport::new(loopback(0));
    let mtu = client.mtu_hint();
    assert_eq!(
        client.connect(&announce(PeerAddress::Quic(server_addr))).unwrap(),
        server.accept().unwrap()
    );

    let server_identity = NodeIdentity::generate();
    let client_identity = NodeIdentity::generate();
    let mut at_client = BundleLayer::new();
    let mut at_server = BundleLayer::new();
    let (mut c, prefix) = Session::initiate(&client_identity, None).unwrap();
    let prefix = carry(&mut at_client, &mut at_server, &prefix, mtu);
    let mut s = Session::respond(&server_identity, &prefix).unwrap();
    let m = carry(&mut at_client, &mut at_server, &c.write().unwrap(), mtu);
    s.read(&m).unwrap();
    let m = carry(&mut at_server, &mut at_client, &s.write().unwrap(), mtu);
    c.read(&m).unwrap();
    let m = carry(&mut at_client, &mut at_server, &c.write().unwrap(), mtu);
    s.read(&m).unwrap();
    let mut c = c.finish().unwrap();
    let mut s = s.finish().unwrap();
    let wire = carry(
        &mut at_client,
        &mut at_server,
        &c.send(b"hello from quic").unwrap(),
        mtu,
    );
    assert_eq!(s.recv(&wire).unwrap(), b"hello from quic");
}

#[test]
fn frames_carry_their_length() {
    assert_eq!(encode_frame(b"ab"), vec![0, 0, 0, 2, b'a', b'b']);
    assert_eq!(frame_len(&[0, 0, 1, 2]), 258);
    assert_eq!(decode_frame(&[0, 0, 0]), None);
    assert_eq!(decode_frame(&[0, 0, 0, 2, b'a']), None);
    assert_eq!(decode_frame(&[0, 0, 0, 1, b'a', b'b']), Some(vec![b'a']));
    assert_eq!(decode_frame(&[0, 0, 0, 0]), Some(vec![]));
}

fn routes(iface: &str) -> String {
    format!(
        "Iface\tDestination\tGateway\tFlags\n{iface}\t0001A8C0\t0\t1\n{iface}\t00000000\t0101A8C0\t3\n"
    )
}

#[test]
fn network_cost_by_default_route() {
    for iface in ["wlan0", "wlp3s0", "wlx1", "eth0", "enp0s3", "eno1", "ens5", "enx00"] {
        assert_eq!(
            detect_network_cost(Some(&routes(iface))),
            TransportCost::Free,
            "{iface}"
        );
    }
    for iface in ["wwan0", "rmnet_data0", "ppp0"] {
        assert_eq!(
            detect_network_cost(Some(&routes(iface))),
            TransportCost::Metered,
            "{iface}"
        );
    }
    assert_eq!(
        detect_network_cost(Some(&routes("tun0"))),
        TransportCost::Unknown
    );
    assert_eq!(detect_network_cost(None), TransportCost::Unknown);
    assert_eq!(detect_network_cost(Some("")), TransportCost::Unknown);
    // The heading is not a route, and the first default route counts.
    assert_eq!(
        detect_network_cost(Some("eth0 00000000\n")),
        TransportCost::Unknown
    );
    assert_eq!(
        detect_network_cost(Some("h\nppp0 00000000\neth0 00000000")),
        TransportCost::Metered
    );
}

#[test]
fn network_cost_by_other_means() {
    assert_eq!(
        interfaces_cost(&vec![InterfaceKind::Mobile, InterfaceKind::Wifi]),
        TransportCost::Free
    );
    assert_eq!(
        interfaces_cost(&vec![InterfaceKind::Ethernet]),
        TransportCost::Free
    );
    assert_eq!(
        interfaces_cost(&vec![InterfaceKind::Other, InterfaceKind::Mobile]),
        TransportCost::Metered
    );
    assert_eq!(
        interfaces_cost(&vec![InterfaceKind::Other]),
        TransportCost::Unknown
    );
    assert_eq!(
        plan_cost(Some(ConnectionPlan::Unrestricted)),
        TransportCost::Free
    );
    assert_eq!(
        plan_cost(Some(ConnectionPlan::Fixed)),
        TransportCost::Metered
    );
    assert_eq!(
        plan_cost(Some(ConnectionPlan::Variable)),
        TransportCost::Metered
    );
    assert_eq!(
        plan_cost(Some(ConnectionPlan::Other)),
        TransportCost::Metered
    );
    assert_eq!(
        plan_cost(Some(ConnectionPlan::Unknown)),
        TransportCost::Unknown
    );
    assert_eq!(plan_cost(None), TransportCost::Unknown);
    for cost in [
        TransportCost::Free,
        TransportCost::Metered,
        TransportCost::Unknown,
    ] {
        assert_eq!(cost_from_code(cost_code(cost)), cost);
    }
    assert_eq!(cost_from_code(9), TransportCost::Unknown);
}

#[test]
fn mdns_departures_match_announcements() {
    let mut bridge = MdnsBridge::new();
    let name = "abc._pathweave._udp.local.".to_string();
    let anns = bridge.resolved(name.clone(), &vec![[10, 0, 0, 1], [10, 0, 0, 2]], 77);
    assert_eq!(anns.len(), 2);
    assert!(
        anns[1].address
            == PeerAddress::Quic(SocketAddr::V4 {
                ip: [10, 0, 0, 2],
                port: 77
            })
    );
    // Resolved anew, the later addresses count.
    bridge.resolved(name.clone(), &vec![[10, 0, 0, 3]], 78);
    let gone = bridge.removed(&name);
    assert!(
        gone == vec![PeerAddress::Quic(SocketAddr::V4 {
            ip: [10, 0, 0, 3],
            port: 78
        })]
    );
    assert!(bridge.removed(&name).is_empty());
    assert!(bridge.removed(&"other".to_string()).is_empty());
}

#[test]
fn quic_transport_state() {
    let mut t = QuicTransport::new(loopback(5));
    let other = QuicTransport::new(loopback(5));
    assert_eq!(t.instance_name().len(), 16);
    assert_ne!(t.instance_name(), other.instance_name());
    assert_eq!(t.host_name(), format!("{}.local.", t.instance_name()));
    assert_eq!(instance_name_from([0xab; 8]), "abababababababab");
    assert_eq!(t.listen_addr(), loopback(5));
    assert_eq!(t.cost(), TransportCost::Unknown);
    assert!(t.local_addresses().is_empty());
    t.start(loopback(6), TransportCost::Metered);
    assert_eq!(t.cost(), TransportCost::Metered);
    assert!(t.local_addresses() == vec![PeerAddress::Quic(loopback(6))]);
    t.stop();
    assert_eq!(t.local_addr(), None);
    assert_eq!(t.kind(), TransportKind::Quic);
    assert_eq!(t.mtu_hint(), 1200);
}

// Wi-Fi Direct

#[test]
fn device_names_carry_short_ids() {
    assert_eq!(own_device_name(&known_id()), "pathweave-p2p:0001020304050607");
    assert_eq!(
        parse_short_id_from_service_name("pathweave-p2p:0001020304050607"),
        Some([0, 1, 2, 3, 4, 5, 6, 7])
    );
    assert_eq!(parse_short_id_from_service_name("pathweave-p2p"), None);
    assert_eq!(
        parse_short_id_from_service_name("other:0001020304050607"),
        None
    );
    assert_eq!(parse_short_id_from_service_name("pathweave-p2p:00"), None);
    assert_eq!(
        parse_short_id_from_service_name("pathweave-p2p:+1+1+1+1+1+1+1+1"),
        None
    );
}

#[test]
fn found_devices_announce_peers() {
    let ann = found_peer(&"/a/b/aabbcc".to_string(), Some(own_device_name(&known_id()))).unwrap();
    assert!(ann.address == PeerAddress::WifiDirect("aabbcc".into()));
    assert_eq!(ann.short_id, Some([0, 1, 2, 3, 4, 5, 6, 7]));
    let ann = found_peer(&"aabbcc".to_string(), None).unwrap();
    assert!(ann.address == PeerAddress::WifiDirect("aabbcc".into()));
    assert_eq!(ann.short_id, None);
    assert!(found_peer(&"/a/".to_string(), None).is_none());

    let name = || Some(own_device_name(&known_id()));
    assert!(enumerated_peer("d".into(), name(), Some(short_id(&known_id()))).is_none());
    let ann = enumerated_peer("d".into(), name(), Some([9; 8])).unwrap();
    assert_eq!(ann.short_id, Some([0, 1, 2, 3, 4, 5, 6, 7]));
    assert!(enumerated_peer("d".into(), None, Some([9; 8]))
        .unwrap()
        .short_id
        .is_none());
}

#[test]
fn greater_short_id_owns_the_group() {
    let a = [1, 2, 3, 4, 5, 6, 7, 8];
    let b = [1, 2, 3, 4, 5, 6, 7, 9];
    assert!(!is_group_owner(&a, Some(b)));
    assert!(is_group_owner(&b, Some(a)));
    assert!(!is_group_owner(&a, Some(a)));
    assert!(!is_group_owner(&b, None));
    assert_eq!(go_intent(true), 15);
    assert_eq!(go_intent(false), 0);
    assert_eq!(go_ip_key(true), "ip_addr");
    assert_eq!(go_ip_key(false), "ip_addr_go");
    assert_eq!(
        extract_go_ip(Some("10.0.0.1".into()), true).unwrap(),
        "10.0.0.1"
    );
    assert_eq!(
        text_of(extract_go_ip(None, false)),
        "WiFi Direct: 'ip_addr_go' missing from GroupStarted properties"
    );
    assert_eq!(client_dials("d".into(), false).unwrap(), "d");
    assert!(text_of(client_dials("d".into(), true)).starts_with("WiFi Direct: this node is GO"));
    assert!(waits_for_client(&Some("GO".into())));
    assert!(!waits_for_client(&Some("client".into())));
    assert!(!waits_for_client(&None));
}

#[test]
fn wifi_direct_transport_state() {
    let mut t = WifiDirectTransport::new();
    let mut peer = announce(PeerAddress::WifiDirect("mac".into()));
    assert_eq!(text_of(t.connect(&peer)), "WiFi Direct transport not started");
    assert_eq!(
        text_of(t.connect(&announce(PeerAddress::Ble("mac".into())))),
        "WiFi Direct connect: wrong address type"
    );
    t.start(&known_id());
    assert_eq!(t.local_short_id(), Some([0, 1, 2, 3, 4, 5, 6, 7]));
    assert_eq!(t.connect(&peer).unwrap(), ("mac".to_string(), false));
    peer.short_id = Some([0; 8]);
    assert_eq!(t.connect(&peer).unwrap(), ("mac".to_string(), true));
    assert!(t.local_addresses().is_empty());
    t.stop();
    assert!(matches!(
        t.accept_error(),
        PathweaveError::Transport(m) if m == "WiFi Direct transport not started"
    ));
    assert_eq!(t.kind(), TransportKind::WifiDirect);
    assert_eq!(t.cost(), TransportCost::Free);
    assert_eq!(t.mtu_hint(), 1400);
}
