use snarkos_network::message::{Payload, PeerAddress, Verack, Version};
use snarkos_network::node::{Config, Node, PROTOCOL_VERSION};

fn addr(port: u16) -> PeerAddress {
    PeerAddress::new(0x7f000001, port)
}

#[test]
fn self_connect_is_rejected_without_verack() {
    let mut node = Node::new(Config::new(), None);
    let target = addr(4131);

    // The node dials itself: the Version it receives carries its own
    // outstanding nonce.
    let nonce = 0x4242_4242_4242_4242;
    let greeting = node.start_handshake(target, nonce, 0).unwrap();
    let version = match greeting.payload {
        Payload::Version(v) => v,
        other => panic!("expected a Version payload, got {:?}", other),
    };

    let decision = node.received_version(target, &version, 0);
    assert!(decision.is_none());
}

#[test]
fn foreign_version_is_answered_with_version_and_verack() {
    let mut node = Node::new(Config::new(), None);
    let remote = addr(50000);

    let their_version = Version::new(PROTOCOL_VERSION, 4555, 3, 77);
    let (version_reply, verack_reply) = node.received_version(remote, &their_version, 9).unwrap();

    // The replies go to the peer's listener address, not the transient
    // socket address.
    let listener = addr(4555);
    assert_eq!(version_reply.direction, snarkos_network::message::Direction::Outbound(listener));
    match version_reply.payload {
        Payload::Version(v) => {
            assert_eq!(v.height, 9);
            assert_eq!(v.nonce, 77);
        }
        other => panic!("expected a Version payload, got {:?}", other),
    }
    match verack_reply.payload {
        Payload::Verack(k) => assert_eq!(k.nonce, 77),
        other => panic!("expected a Verack payload, got {:?}", other),
    }
    assert!(node.peer_book.is_connecting(listener));
}

#[test]
fn verack_with_matching_nonce_completes_the_handshake() {
    let mut node = Node::new(Config::new(), None);
    let target = addr(4600);

    let nonce = 99;
    node.start_handshake(target, nonce, 0).unwrap();
    assert!(node.peer_book.is_connecting(target));

    let accepted = node.received_verack(target, &Verack::new(nonce));
    assert!(accepted);
    assert!(node.peer_book.is_connected(target));
    assert!(!node.peer_book.is_connecting(target));
}

#[test]
fn verack_with_unknown_nonce_is_refused() {
    let mut node = Node::new(Config::new(), None);
    let target = addr(4600);

    node.start_handshake(target, 1, 0).unwrap();
    let accepted = node.received_verack(target, &Verack::new(2));
    assert!(!accepted);
    assert!(!node.peer_book.is_connected(target));
}

#[test]
fn admission_control_keeps_the_connected_cap() {
    let mut config = Config::new();
    config.maximum_number_of_connected_peers = 2;
    let mut node = Node::new(config, None);

    assert!(node.accept_connection(addr(1), None).is_ok());
    assert!(node.accept_connection(addr(2), None).is_ok());
    assert!(node.accept_connection(addr(3), None).is_err());

    assert_eq!(node.peer_book.number_of_connected_peers(), 2);
    assert!(node.peer_book.is_disconnected(addr(3)));
    assert!(node.peer_book.number_of_connected_peers() <= 2);
}

#[test]
fn get_peers_excludes_the_asker() {
    let mut node = Node::new(Config::new(), None);
    let asker = addr(1);
    let other = addr(2);
    node.peer_book.set_connected(asker, None).unwrap();
    node.peer_book.set_connected(other, None).unwrap();

    let reply = node.received_get_peers(asker);
    match reply.payload {
        Payload::Peers(ps) => assert_eq!(ps, vec![other]),
        other => panic!("expected a Peers payload, got {:?}", other),
    }
}

#[test]
fn received_peers_records_unknown_addresses() {
    let mut node = Node::new(Config::new(), None);
    let own = addr(4131);
    let new_peer = addr(5000);

    node.received_peers(own, &vec![own, new_peer]);
    assert!(node.peer_book.is_disconnected(new_peer));
    assert!(!node.peer_book.is_disconnected(own));
}

#[test]
fn periodic_ticks_target_connected_peers() {
    let mut node = Node::new(Config::new(), None);
    assert!(node.tx_sync_tick().is_none());

    let a = addr(7001);
    node.peer_book.set_connected(a, None).unwrap();
    let m = node.tx_sync_tick().unwrap();
    assert_eq!(m.payload, Payload::GetMemoryPool);

    let pings = node.ping_tick(5);
    assert_eq!(pings.len(), 1);
    assert_eq!(pings[0].payload, Payload::Ping(5));
    assert!(node.peer_book.get_peer(a).unwrap().quality.expecting_pong);
    assert!(node.peer_book.get_peer(a).unwrap().quality.last_ping_sent.is_some());
}
