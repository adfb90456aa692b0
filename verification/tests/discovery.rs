use dht_core::discovery::{
    advertised_ip4, build_peer_report, discovery_decisions, overlay_port, parse_peer_report,
    BootstrapNode, BootstrapStore, DiscoveryAction, DiscoveryEvent, SocketKind,
};

#[test]
fn socket_kind_names_round_trip() {
    assert_eq!(SocketKind::Ip4.as_str(), "ip4");
    assert_eq!(SocketKind::Ip6.as_str(), "ip6");
    assert_eq!(SocketKind::Ds.as_str(), "ds");
    assert!(matches!(SocketKind::from_str("ip4"), Ok(SocketKind::Ip4)));
    assert!(matches!(SocketKind::from_str("ip6"), Ok(SocketKind::Ip6)));
    assert!(matches!(SocketKind::from_str("ds"), Ok(SocketKind::Ds)));
    assert!(SocketKind::from_str("tcp").is_err());
    assert!(SocketKind::from_str("").is_err());
}

#[test]
fn bootstrap_store_first_node() {
    let empty = BootstrapStore { data: vec![] };
    assert!(empty.first_node().is_none());
    let store = BootstrapStore {
        data: vec![
            BootstrapNode { enr: "enr:first-entry".to_string() },
            BootstrapNode { enr: "enr:other".to_string() },
        ],
    };
    assert_eq!(store.first_node().unwrap().enr, "enr:first-entry");
}

#[test]
fn peer_report_parses_exactly_one_separator() {
    let ok = parse_peer_report(&b"nodeid|7".to_vec()).unwrap();
    assert_eq!(ok.0, b"nodeid".to_vec());
    assert_eq!(ok.1, b"7".to_vec());
    assert!(parse_peer_report(&b"no-separator".to_vec()).is_none());
    assert!(parse_peer_report(&b"a|b|c".to_vec()).is_none());
    let edge = parse_peer_report(&b"|".to_vec()).unwrap();
    assert!(edge.0.is_empty() && edge.1.is_empty());
}

#[test]
fn peer_report_builds_back() {
    let body = build_peer_report(&b"me".to_vec(), &b"3".to_vec());
    assert_eq!(body, b"me|3".to_vec());
    let (a, b) = parse_peer_report(&body).unwrap();
    assert_eq!(a, b"me".to_vec());
    assert_eq!(b, b"3".to_vec());
}

#[test]
fn port_and_address_helpers() {
    assert_eq!(overlay_port(8000), 8001);
    assert_eq!(overlay_port(u16::MAX), u16::MAX);
    assert_eq!(advertised_ip4(0), 0x7f000001);
    assert_eq!(advertised_ip4(0x0a000001), 0x0a000001);
}

#[test]
fn discovered_peer_is_pinged_and_recorded() {
    let ev = DiscoveryEvent::Discovered {
        has_addr: true,
        ip: 0x0a000002,
        port: 9005,
        node_id: Some(b"abcd".to_vec()),
    };
    let acts = discovery_decisions(&ev, &b"self".to_vec(), &b"0".to_vec());
    assert_eq!(acts.len(), 2);
    assert!(matches!(
        acts[0],
        DiscoveryAction::PingAt { ip: 0x0a000002, port: 9006 }
    ));
    match &acts[1] {
        DiscoveryAction::PutPair { key, value } => {
            assert_eq!(key, &b"abcd".to_vec());
            assert_eq!(value, &b"0".to_vec());
        }
        _ => panic!("expected a put"),
    }
}

#[test]
fn discovered_peer_without_address_needs_nothing() {
    let ev = DiscoveryEvent::Discovered { has_addr: false, ip: 0, port: 0, node_id: None };
    assert!(discovery_decisions(&ev, &b"self".to_vec(), &b"0".to_vec()).is_empty());
}

#[test]
fn socket_update_pings_the_address_as_is() {
    let ev = DiscoveryEvent::SocketUpdated { ip: 0x7f000001, port: 8123 };
    let acts = discovery_decisions(&ev, &b"self".to_vec(), &b"0".to_vec());
    assert_eq!(acts.len(), 1);
    assert!(matches!(
        acts[0],
        DiscoveryAction::PingAt { ip: 0x7f000001, port: 8123 }
    ));
}

#[test]
fn talk_request_records_and_answers() {
    let ev = DiscoveryEvent::TalkRequest { is_peer_size: true, body: b"peer9|12".to_vec() };
    let acts = discovery_decisions(&ev, &b"me".to_vec(), &b"4".to_vec());
    assert_eq!(acts.len(), 2);
    match &acts[0] {
        DiscoveryAction::PutPair { key, value } => {
            assert_eq!(key, &b"peer9".to_vec());
            assert_eq!(value, &b"12".to_vec());
        }
        _ => panic!("expected a put"),
    }
    match &acts[1] {
        DiscoveryAction::Respond { body } => assert_eq!(body, &b"me|4".to_vec()),
        _ => panic!("expected a response"),
    }
}

#[test]
fn malformed_talk_request_gets_empty_answer() {
    let ev = DiscoveryEvent::TalkRequest { is_peer_size: true, body: b"junk".to_vec() };
    let acts = discovery_decisions(&ev, &b"me".to_vec(), &b"4".to_vec());
    assert_eq!(acts.len(), 1);
    assert!(matches!(acts[0], DiscoveryAction::RespondEmpty));
}

#[test]
fn talk_request_with_invalid_text_gets_empty_answer() {
    // one separator, but the left half is not valid UTF-8
    let mut body = vec![0x80u8];
    body.push(b'|');
    body.push(b'7');
    assert!(parse_peer_report(&body).is_none());
    let ev = DiscoveryEvent::TalkRequest { is_peer_size: true, body };
    let acts = discovery_decisions(&ev, &b"me".to_vec(), &b"4".to_vec());
    assert_eq!(acts.len(), 1);
    assert!(matches!(acts[0], DiscoveryAction::RespondEmpty));
    // and the same with the right half broken
    let body = vec![b'a', b'|', 0xC0u8];
    assert!(parse_peer_report(&body).is_none());
}

#[test]
fn ip6_fallback_is_loopback() {
    assert_eq!(dht_core::discovery::advertised_ip6(0), 1);
    assert_eq!(dht_core::discovery::advertised_ip6(42), 42);
}
