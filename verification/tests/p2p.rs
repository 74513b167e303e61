use znx::p2p::{
    classify_topic, decode_block_request, encode_block_request, encode_block_response, netgroup_of,
    netgroup_of_parts, read_block_response, AddressPart, NetworkAction, NetworkEvent, PeerTable,
    ResponseProgress, TopicKind,
};

#[test]
fn ipv4_addresses_share_netgroup_by_slash_16() {
    let a: libp2p::Multiaddr = "/ip4/203.0.113.10/tcp/30333".parse().unwrap();
    let b: libp2p::Multiaddr = "/ip4/203.0.113.200/tcp/40000".parse().unwrap();
    assert_eq!(netgroup_of(&a), netgroup_of(&b));
}

#[test]
fn ipv4_addresses_in_different_slash_16_differ() {
    let a: libp2p::Multiaddr = "/ip4/203.0.113.10/tcp/30333".parse().unwrap();
    let b: libp2p::Multiaddr = "/ip4/198.51.100.10/tcp/30333".parse().unwrap();
    assert_ne!(netgroup_of(&a), netgroup_of(&b));
}

#[test]
fn ipv6_addresses_share_netgroup_by_slash_32() {
    let a: libp2p::Multiaddr = "/ip6/2001:db8::1/tcp/30333".parse().unwrap();
    let b: libp2p::Multiaddr = "/ip6/2001:db8::dead:beef/tcp/30333".parse().unwrap();
    assert_eq!(netgroup_of(&a), netgroup_of(&b));
}

#[test]
fn ipv6_addresses_in_different_slash_32_differ() {
    let a: libp2p::Multiaddr = "/ip6/2001:db8::1/tcp/30333".parse().unwrap();
    let b: libp2p::Multiaddr = "/ip6/2001:dead::1/tcp/30333".parse().unwrap();
    assert_ne!(netgroup_of(&a), netgroup_of(&b));
}

#[test]
fn dns_addresses_group_by_full_hostname() {
    let a: libp2p::Multiaddr = "/dns4/node-a.example.com/tcp/30333".parse().unwrap();
    let b: libp2p::Multiaddr = "/dns4/node-b.example.com/tcp/30333".parse().unwrap();
    let c: libp2p::Multiaddr = "/dns4/node-a.example.com/tcp/40000".parse().unwrap();
    assert_ne!(netgroup_of(&a), netgroup_of(&b));
    assert_eq!(netgroup_of(&a), netgroup_of(&c));
}

fn group(address: &str) -> String {
    let address: libp2p::Multiaddr = address.parse().unwrap();
    netgroup_of(&address)
}

#[test]
fn neighbourhoods_are_named_by_the_host() {
    assert_eq!(group("/ip4/203.0.113.10/tcp/30333"), "v4:203.0");
    assert_eq!(group("/ip6/2001:db8::1/tcp/30333"), "v6:2001:db8");
    assert_eq!(group("/ip6/::1/tcp/30333"), "v6:0:0");
    assert_eq!(group("/dns/a.example/tcp/1"), "dns:a.example");
    assert_eq!(group("/dns4/a.example/tcp/1"), "dns:a.example");
    assert_eq!(group("/dns6/a.example/tcp/1"), "dns:a.example");
    assert_eq!(group("/memory/5"), "unknown:/memory/5");
    let parts = vec![AddressPart::Other, AddressPart::Ip4([1, 2, 3, 4]), AddressPart::Dns("x".to_string())];
    assert_eq!(netgroup_of_parts(&parts, "texto"), "v4:1.2");
    assert_eq!(netgroup_of_parts(&vec![AddressPart::Other], "texto"), "unknown:texto");
}

#[test]
fn a_neighbourhood_has_eight_connections_at_most() {
    let mut table = PeerTable::new();
    for id in 0..8 {
        assert!(table.established(id, "v4:1.2".to_string(), None));
    }
    assert!(!table.established(8, "v4:1.2".to_string(), None));
    assert!(table.established(9, "v4:1.3".to_string(), None));
    table.closed(8);
    assert!(!table.established(10, "v4:1.2".to_string(), None));
    table.closed(3);
    assert!(table.established(11, "v4:1.2".to_string(), None));
}

#[test]
fn rotation_picks_the_oldest_of_several_outbound_connections() {
    let mut table = PeerTable::new();
    assert_eq!(table.oldest_outbound(), None);
    assert!(table.established(1, "a".to_string(), Some(30)));
    assert_eq!(table.oldest_outbound(), None);
    assert!(table.established(2, "b".to_string(), None));
    assert_eq!(table.oldest_outbound(), None);
    assert!(table.established(3, "c".to_string(), Some(10)));
    assert!(table.established(4, "d".to_string(), Some(20)));
    assert_eq!(table.oldest_outbound(), Some(3));
    table.closed(3);
    assert_eq!(table.oldest_outbound(), Some(4));
    table.closed(4);
    assert_eq!(table.oldest_outbound(), None);
}

#[test]
fn messages_are_told_apart_by_their_topic() {
    assert_eq!(classify_topic("/znx/tx/1"), Some(TopicKind::Transaction));
    assert_eq!(classify_topic("/znx/blocks/1"), Some(TopicKind::Block));
    assert_eq!(classify_topic("/znx/tx/2"), None);
}

#[test]
fn a_request_is_the_height_in_eight_bytes() {
    assert_eq!(encode_block_request(258), [0, 0, 0, 0, 0, 0, 1, 2]);
    assert_eq!(decode_block_request(&encode_block_request(u64::MAX - 1)), u64::MAX - 1);
}

#[test]
fn an_answer_is_read_as_it_comes_in() {
    assert_eq!(encode_block_response(&None), vec![0]);
    let sent = encode_block_response(&Some(vec![7, 8]));
    assert_eq!(sent, vec![1, 0, 0, 0, 2, 7, 8]);
    assert_eq!(read_block_response(&sent[..0]), ResponseProgress::NeedMore(1));
    assert_eq!(read_block_response(&sent[..1]), ResponseProgress::NeedMore(4));
    assert_eq!(read_block_response(&sent[..5]), ResponseProgress::NeedMore(2));
    assert_eq!(read_block_response(&sent), ResponseProgress::Complete(Some(vec![7, 8])));
    assert_eq!(read_block_response(&[0]), ResponseProgress::Complete(None));
    assert_eq!(read_block_response(&[1, 1, 0, 0, 0]), ResponseProgress::NeedMore(16 * 1024 * 1024));
    assert_eq!(read_block_response(&[1, 1, 0, 0, 1]), ResponseProgress::TooLarge);
}

#[test]
fn each_event_on_the_network_has_its_action() {
    let mut table = PeerTable::new();
    let message = |topic: &str| NetworkEvent::Message { topic: topic.to_string() };
    assert_eq!(table.handle(message("/znx/tx/1")), NetworkAction::Deliver(TopicKind::Transaction));
    assert_eq!(table.handle(message("/znx/blocks/1")), NetworkAction::Deliver(TopicKind::Block));
    assert_eq!(table.handle(message("/otra")), NetworkAction::RejectMessage);
    assert_eq!(table.handle(NetworkEvent::RotationDue), NetworkAction::Redial);
    for id in 0..8 {
        let event = NetworkEvent::Established { id, group: "g".to_string(), dialed_at: Some(100 - id) };
        assert_eq!(table.handle(event), NetworkAction::Announce);
    }
    let event = NetworkEvent::Established { id: 8, group: "g".to_string(), dialed_at: None };
    assert_eq!(table.handle(event), NetworkAction::Refuse);
    assert_eq!(table.handle(NetworkEvent::RotationDue), NetworkAction::Rotate(7));
    assert_eq!(table.handle(NetworkEvent::Closed { id: 7 }), NetworkAction::Nothing);
    assert_eq!(table.handle(NetworkEvent::RotationDue), NetworkAction::Rotate(6));
}

#[test]
fn a_lost_outbound_connection_is_dialled_again() {
    let mut table = PeerTable::new();
    let inbound = NetworkEvent::Established { id: 0, group: "a".to_string(), dialed_at: None };
    let outbound = NetworkEvent::Established { id: 1, group: "b".to_string(), dialed_at: Some(3) };
    assert_eq!(table.handle(inbound), NetworkAction::Announce);
    assert_eq!(table.handle(outbound), NetworkAction::Announce);
    assert!(table.has_outbound());
    assert_eq!(table.handle(NetworkEvent::RotationDue), NetworkAction::Nothing);
    assert_eq!(table.handle(NetworkEvent::Closed { id: 0 }), NetworkAction::Nothing);
    assert_eq!(table.handle(NetworkEvent::Closed { id: 1 }), NetworkAction::Redial);
    assert!(!table.has_outbound());
    assert_eq!(table.handle(NetworkEvent::RotationDue), NetworkAction::Redial);
}
