use pathweave::router::{
    ack_result, candidates, current_ipv4_addrs, message_id_from, new_message_id, send_error,
    AckWait, HealthMonitor, InterfaceAddr, SendStep, TransportStatus, MAX_SEND_ATTEMPTS,
    MESSAGE_ID_BIT,
};
use pathweave::transport::SocketAddr;
use pathweave::{
    NodeIdentity, PathweaveError, PeerAddress, PeerAnnouncement, Router, Session,
    TransportCost, TransportEvent, TransportKind,
};

fn dummy_peer() -> PeerAnnouncement {
    PeerAnnouncement {
        address: PeerAddress::Ble("aa:bb:cc:dd:ee:ff".into()),
        short_id: None,
    }
}

fn quic_peer() -> PeerAnnouncement {
    PeerAnnouncement {
        address: PeerAddress::Quic(SocketAddr::V4 {
            ip: [127, 0, 0, 1],
            port: 9001,
        }),
        short_id: None,
    }
}

fn dual_peer() -> Vec<PeerAnnouncement> {
    vec![dummy_peer(), quic_peer()]
}

/// A router with a free BLE transport and a metered QUIC transport, both running.
fn dual_router() -> (Router, usize, usize) {
    let mut router = Router::new();
    let ble = router.register_transport(TransportKind::Ble, TransportCost::Free);
    let quic = router.register_transport(TransportKind::Quic, TransportCost::Metered);
    router.set_status(ble, true, TransportCost::Free);
    router.set_status(quic, true, TransportCost::Metered);
    (router, ble, quic)
}

/// Runs a send. `works` says for each transport, by how often it was tried, whether it works.
fn run_send(
    router: &Router,
    anns: &Vec<PeerAnnouncement>,
    transports: usize,
    works: impl Fn(usize, usize) -> bool,
) -> (Result<usize, PathweaveError>, Vec<usize>) {
    let mut tries = vec![0; transports];
    let mut run = router.send(anns);
    loop {
        let step = run.step();
        match step {
            SendStep::Try { transport, .. } => {
                tries[transport] += 1;
                if works(transport, tries[transport]) {
                    return (Ok(transport), tries);
                }
                run.failed();
            }
            SendStep::Backoff => run.backed_off(router, anns),
            SendStep::NoTransport | SendStep::Failed => {
                return (Err(send_error(step).unwrap()), tries)
            }
        }
    }
}

#[test]
fn send_with_dual_address_peer_prefers_free_transport_and_skips_metered() {
    let (router, ble, quic) = dual_router();
    let (result, tries) = run_send(&router, &dual_peer(), 2, |_, _| true);
    assert_eq!(result.unwrap(), ble);
    assert_eq!(tries[ble], 1, "BLE should be used");
    assert_eq!(
        tries[quic], 0,
        "QUIC must not be attempted when BLE succeeds"
    );
}

#[test]
fn send_prefers_free_transport() {
    let (router, ble, quic) = dual_router();
    let (result, tries) = run_send(&router, &vec![dummy_peer()], 2, |_, _| true);
    assert_eq!(result.unwrap(), ble);
    assert_eq!(tries[ble], 1, "BLE should be used");
    assert_eq!(tries[quic], 0, "QUIC should not be used");
}

#[test]
fn send_falls_back_on_connect_failure() {
    let (router, ble, quic) = dual_router();
    let (result, tries) = run_send(&router, &dual_peer(), 2, |t, _| t == quic);
    assert_eq!(result.unwrap(), quic);
    assert_eq!(tries[ble], 1, "BLE should be attempted");
    assert_eq!(tries[quic], 1, "QUIC should be used after BLE fails");
}

#[test]
fn send_returns_delivery_failed_when_all_transports_fail() {
    let (router, ble, quic) = dual_router();
    let (result, tries) = run_send(&router, &dual_peer(), 2, |_, _| false);
    assert!(
        matches!(result, Err(PathweaveError::DeliveryFailed)),
        "expected DeliveryFailed, got: {result:?}"
    );
    assert_eq!(MAX_SEND_ATTEMPTS, 3);
    assert_eq!(
        tries[ble], MAX_SEND_ATTEMPTS,
        "BLE should be tried once per attempt"
    );
    assert_eq!(
        tries[quic], MAX_SEND_ATTEMPTS,
        "QUIC should be tried once per attempt"
    );
}

#[test]
fn send_returns_no_transport_when_none_registered() {
    let router = Router::new();
    let (result, _) = run_send(&router, &vec![dummy_peer()], 0, |_, _| true);
    assert!(matches!(result, Err(PathweaveError::NoTransportAvailable)));
}

#[test]
fn send_succeeds_on_retry_after_transient_failure() {
    // The transport fails the first connect, then succeeds.
    let mut router = Router::new();
    let ble = router.register_transport(TransportKind::Ble, TransportCost::Free);
    router.set_status(ble, true, TransportCost::Free);
    let (result, tries) = run_send(&router, &vec![dummy_peer()], 1, |_, n| n > 1);
    assert_eq!(result.unwrap(), ble);
    assert_eq!(tries[ble], 2);
}

#[test]
fn send_returns_no_transport_when_none_available_after_precheck() {
    // The transport is registered but not running.
    let mut router = Router::new();
    router.register_transport(TransportKind::Ble, TransportCost::Free);
    let (result, tries) = run_send(&router, &vec![dummy_peer()], 1, |_, _| true);
    assert!(
        matches!(result, Err(PathweaveError::NoTransportAvailable)),
        "expected NoTransportAvailable, got: {result:?}"
    );
    assert_eq!(tries[0], 0, "no connect attempts should be made");
}

#[test]
fn connect_returns_peer_id_on_success() {
    let mut router = Router::new();
    let ble = router.register_transport(TransportKind::Ble, TransportCost::Free);
    router.set_status(ble, true, TransportCost::Free);
    let initiator_id = NodeIdentity::generate();
    let responder_id = NodeIdentity::generate();

    let candidate = router.connect(&vec![dummy_peer()]).next_candidate();
    assert_eq!(candidate.unwrap(), (ble, 0));
    let (mut a, prefix) = Session::initiate(&initiator_id, None).unwrap();
    let mut b = Session::respond(&responder_id, &prefix).unwrap();
    b.read(&a.write().unwrap()).unwrap();
    a.read(&b.write().unwrap()).unwrap();
    b.read(&a.write().unwrap()).unwrap();
    assert_eq!(a.finish().unwrap().peer_id(), responder_id.peer_id());
}

#[test]
fn connect_returns_no_transport_when_none_registered() {
    let router = Router::new();
    let result = router.connect(&vec![dummy_peer()]).next_candidate();
    assert!(matches!(result, Err(PathweaveError::NoTransportAvailable)));
}

#[test]
fn connect_tries_each_candidate_once() {
    let (router, ble, quic) = dual_router();
    let mut run = router.connect(&dual_peer());
    assert_eq!(run.next_candidate().unwrap(), (ble, 0));
    assert_eq!(run.next_candidate().unwrap(), (quic, 1));
    assert!(run.next_candidate().is_err());
    assert!(run.next_candidate().is_err());
}

#[test]
fn backoff_ends_when_transports_are_lost() {
    let (mut router, ble, quic) = dual_router();
    let mut run = router.send(&dual_peer());
    assert_eq!(
        run.step(),
        SendStep::Try {
            transport: ble,
            address: 0
        }
    );
    run.failed();
    assert_eq!(
        run.step(),
        SendStep::Try {
            transport: quic,
            address: 1
        }
    );
    run.failed();
    assert_eq!(run.step(), SendStep::Backoff);
    router.set_status(ble, false, TransportCost::Free);
    router.set_status(quic, false, TransportCost::Metered);
    run.backed_off(&router, &dual_peer());
    assert_eq!(run.step(), SendStep::NoTransport);
}

#[test]
fn cheaper_transports_come_first() {
    let status = |kind, cost, available| TransportStatus {
        kind,
        cost,
        available,
    };
    let ts = vec![
        status(TransportKind::Quic, TransportCost::Unknown, true),
        status(TransportKind::Quic, TransportCost::Metered, true),
        status(TransportKind::Ble, TransportCost::Free, false),
        status(TransportKind::Quic, TransportCost::Free, true),
        status(TransportKind::Ble, TransportCost::Free, true),
    ];
    // The order of registration decides between equals.
    assert_eq!(candidates(&ts, &dual_peer()), vec![(3, 1), (4, 0), (1, 1), (0, 1)]);
}

#[test]
fn delivery_is_reported_with_its_transport() {
    let (router, ble, _) = dual_router();
    let peer = *NodeIdentity::generate().peer_id();
    match router.delivered(ble, peer) {
        Some(TransportEvent::MessageDelivered { peer_id, transport }) => {
            assert_eq!(peer_id, peer);
            assert_eq!(transport, TransportKind::Ble);
        }
        other => panic!("unexpected: {other:?}"),
    }
    assert!(router.delivered(7, peer).is_none());
}

#[test]
fn acknowledgement_decides_a_send() {
    assert!(ack_result(AckWait::Confirmed).is_ok());
    assert!(matches!(
        ack_result(AckWait::Broken(PathweaveError::InvalidKey)),
        Err(PathweaveError::InvalidKey)
    ));
    match ack_result(AckWait::TimedOut) {
        Err(PathweaveError::Transport(text)) => assert_eq!(text, "delivery ACK timed out"),
        other => panic!("unexpected: {other:?}"),
    }
}

#[test]
fn message_ids_are_marked_and_differ() {
    assert_eq!(
        message_id_from([0x01, 0x02, 0x03, 0x04, 0x05, 0x06, 0x07, 0x08]),
        0x8102030405060708
    );
    assert_eq!(message_id_from([0xff; 8]), u64::MAX);
    let a = new_message_id();
    let b = new_message_id();
    assert!(a >= MESSAGE_ID_BIT && b >= MESSAGE_ID_BIT);
    assert_ne!(a, b);
}

#[test]
fn interface_addresses_leave_out_loopback_and_ipv6() {
    let ifs = vec![
        InterfaceAddr {
            loopback: true,
            ipv4: Some(0x7f000001),
        },
        InterfaceAddr {
            loopback: false,
            ipv4: Some(0xc0a80105),
        },
        InterfaceAddr {
            loopback: false,
            ipv4: None,
        },
    ];
    assert_eq!(current_ipv4_addrs(&ifs), vec![0xc0a80105]);
}

#[test]
fn health_monitor_initial_success_sets_available() {
    let (monitor, event) = HealthMonitor::started(TransportKind::Ble, vec![], true);
    assert!(monitor.is_available());
    assert!(matches!(
        event,
        Some(TransportEvent::TransportChanged {
            from: None,
            to: TransportKind::Ble
        })
    ));
}

#[test]
fn health_monitor_enters_recovery_and_retries_on_next_tick() {
    let (mut monitor, event) = HealthMonitor::started(TransportKind::Ble, vec![], false);
    assert!(event.is_none());
    assert!(
        !monitor.is_available(),
        "should be unavailable after failed start"
    );
    assert!(monitor.tick(&vec![]), "recovery retries unconditionally");
    monitor.restarted(vec![], true);
    assert!(
        monitor.is_available(),
        "should be available after recovery retry"
    );
}

#[test]
fn health_monitor_recovery_does_not_require_address_change() {
    let addrs = vec![0xc0a80105];
    let (mut monitor, _) = HealthMonitor::started(TransportKind::Ble, addrs.clone(), false);
    assert!(!monitor.is_available());
    assert!(monitor.tick(&addrs));
    monitor.restarted(addrs.clone(), false);
    assert!(
        !monitor.is_available(),
        "still in recovery after second failure"
    );
    assert!(monitor.tick(&addrs));
    monitor.restarted(addrs.clone(), true);
    assert!(monitor.is_available(), "recovered on second retry");
    assert!(!monitor.tick(&addrs));
}

#[test]
fn address_change_restarts_the_transport() {
    let (mut monitor, _) = HealthMonitor::started(TransportKind::Quic, vec![1, 2], true);
    assert!(!monitor.tick(&vec![2, 1]), "order does not matter");
    assert!(monitor.tick(&vec![1, 3]));
    let event = monitor.restarted(vec![1, 3], true);
    assert!(matches!(event, Some(TransportEvent::TransportChanged { .. })));
    assert!(!monitor.tick(&vec![1, 3]));
}
