use snarkos_network::message::PeerAddress;
use snarkos_network::peer_book::PeerBook;
use snarkos_network::peer_info::PeerState;

fn localhost(port: u16) -> PeerAddress {
    // 127.0.0.1, with the four address bytes packed into the low end.
    PeerAddress::new(0x7f000001, port)
}

#[test]
fn test_set_connecting_from_never_connected() {
    let mut peer_book = PeerBook::default();
    let remote_address = localhost(4031);

    peer_book.add_peer(remote_address);
    assert_eq!(false, peer_book.is_connecting(remote_address));
    assert_eq!(false, peer_book.is_connected(remote_address));
    assert_eq!(true, peer_book.is_disconnected(remote_address));

    peer_book.set_connecting(remote_address).unwrap();
    assert_eq!(true, peer_book.is_connecting(remote_address));
    assert_eq!(false, peer_book.is_connected(remote_address));
    assert_eq!(true, peer_book.is_disconnected(remote_address));
}

#[test]
fn test_set_connected_from_connecting() {
    let mut peer_book = PeerBook::default();
    let remote_address = localhost(4031);

    peer_book.set_connecting(remote_address).unwrap();
    assert_eq!(true, peer_book.is_connecting(remote_address));
    assert_eq!(false, peer_book.is_connected(remote_address));
    assert_eq!(false, peer_book.is_disconnected(remote_address));

    peer_book.set_connected(remote_address, None).unwrap();
    assert_eq!(false, peer_book.is_connecting(remote_address));
    assert_eq!(true, peer_book.is_connected(remote_address));
    assert_eq!(false, peer_book.is_disconnected(remote_address));
}

#[test]
fn test_set_disconnected_from_connecting() {
    let mut peer_book = PeerBook::default();
    let remote_address = localhost(4031);

    peer_book.add_peer(remote_address);

    peer_book.set_connecting(remote_address).unwrap();
    assert_eq!(true, peer_book.is_connecting(remote_address));
    assert_eq!(false, peer_book.is_connected(remote_address));
    assert_eq!(true, peer_book.is_disconnected(remote_address));

    peer_book.set_disconnected(remote_address).unwrap();
    assert_eq!(false, peer_book.is_connecting(remote_address));
    assert_eq!(false, peer_book.is_connected(remote_address));
    assert_eq!(true, peer_book.is_disconnected(remote_address));
}

#[test]
fn test_set_disconnected_from_connected() {
    let mut peer_book = PeerBook::default();
    let remote_address = localhost(4031);

    peer_book.set_connecting(remote_address).unwrap();
    assert_eq!(true, peer_book.is_connecting(remote_address));
    assert_eq!(false, peer_book.is_connected(remote_address));
    assert_eq!(false, peer_book.is_disconnected(remote_address));

    peer_book.set_connected(remote_address, None).unwrap();
    assert_eq!(false, peer_book.is_connecting(remote_address));
    assert_eq!(true, peer_book.is_connected(remote_address));
    assert_eq!(false, peer_book.is_disconnected(remote_address));

    peer_book.set_disconnected(remote_address).unwrap();
    assert_eq!(false, peer_book.is_connecting(remote_address));
    assert_eq!(false, peer_book.is_connected(remote_address));
    assert_eq!(true, peer_book.is_disconnected(remote_address));
}

#[test]
fn test_set_connected_from_disconnected() {
    let mut peer_book = PeerBook::default();
    let remote_address = localhost(4031);

    peer_book.set_connecting(remote_address).unwrap();
    peer_book.set_connected(remote_address, None).unwrap();
    peer_book.set_disconnected(remote_address).unwrap();
    assert_eq!(false, peer_book.is_connecting(remote_address));
    assert_eq!(false, peer_book.is_connected(remote_address));
    assert_eq!(true, peer_book.is_disconnected(remote_address));

    assert!(peer_book.set_connected(remote_address, None).is_ok());

    assert_eq!(false, peer_book.is_connecting(remote_address));
    assert_eq!(true, peer_book.is_connected(remote_address));
}

#[test]
fn connect_cycle_counts_connections() {
    let mut peer_book = PeerBook::default();
    let addr = localhost(4131);

    peer_book.set_connecting(addr).unwrap();
    peer_book.set_connected(addr, None).unwrap();
    peer_book.set_disconnected(addr).unwrap();

    let info = peer_book.get_peer(addr).unwrap();
    assert_eq!(info.state, PeerState::Disconnected);
    assert_eq!(info.connection_count, 1);
    assert_eq!(info.disconnection_count, 1);
    assert!(info.disconnection_count >= info.connection_count);
    assert!(info.connection_count >= 1);
}

#[test]
fn listener_address_resolution() {
    let mut peer_book = PeerBook::default();
    let transient = localhost(50512);
    let listener = localhost(4131);

    peer_book.set_connecting(transient).unwrap();
    peer_book.set_connected(transient, Some(listener)).unwrap();

    assert!(peer_book.is_connected(listener));
    assert!(!peer_book.is_connected(transient));
    assert!(!peer_book.is_connecting(transient));
}

#[test]
fn last_seen_picks_most_recent_peer() {
    let mut peer_book = PeerBook::default();
    let a = localhost(4001);
    let b = localhost(4002);
    peer_book.set_connected(a, None).unwrap();
    peer_book.set_connected(b, None).unwrap();

    peer_book.update_last_seen_at(a, 100);
    peer_book.update_last_seen_at(b, 200);
    assert_eq!(peer_book.last_seen(), Some(b));

    peer_book.update_last_seen_at(a, 300);
    assert_eq!(peer_book.last_seen(), Some(a));
}

#[test]
fn last_seen_empty_book_is_none() {
    let peer_book = PeerBook::default();
    assert_eq!(peer_book.last_seen(), None);
}

#[test]
fn ping_pong_updates_quality() {
    let mut peer_book = PeerBook::default();
    let a = localhost(4001);
    peer_book.set_connected(a, None).unwrap();

    peer_book.sending_ping_at(a, 1_000);
    let info = peer_book.get_peer(a).unwrap();
    assert!(info.quality.expecting_pong);
    assert_eq!(info.quality.last_ping_sent, Some(1_000));

    peer_book.received_pong_at(a, 1_250);
    let info = peer_book.get_peer(a).unwrap();
    assert!(!info.quality.expecting_pong);
    assert_eq!(info.quality.rtt_ms, 250);
    assert_eq!(info.quality.failures, 0);

    // A pong nobody asked for counts as a failure.
    peer_book.received_pong_at(a, 1_300);
    let info = peer_book.get_peer(a).unwrap();
    assert_eq!(info.quality.failures, 1);
}

#[test]
fn sync_block_counter_returns_to_zero() {
    let mut peer_book = PeerBook::default();
    let a = localhost(4001);
    peer_book.set_connected(a, None).unwrap();

    peer_book.expecting_sync_blocks(a, 2);
    assert!(peer_book.is_syncing_blocks(a));

    assert_eq!(peer_book.got_sync_block(a), false);
    assert!(peer_book.is_syncing_blocks(a));

    assert_eq!(peer_book.got_sync_block(a), true);
    assert!(!peer_book.is_syncing_blocks(a));
}

#[test]
fn remove_peer_forgets_the_address() {
    let mut peer_book = PeerBook::default();
    let a = localhost(4001);
    peer_book.set_connected(a, None).unwrap();
    peer_book.remove_peer(a);
    assert!(!peer_book.is_connecting(a));
    assert!(!peer_book.is_connected(a));
    assert!(!peer_book.is_disconnected(a));
}

#[test]
fn save_and_load_round_trip_the_whole_book() {
    let mut peer_book = PeerBook::default();
    let a = localhost(4001);
    let b = localhost(4002);
    let c = localhost(4003);
    peer_book.set_connected(a, None).unwrap();
    peer_book.sending_ping_at(a, 500);
    peer_book.update_last_seen_at(a, 700);
    peer_book.expecting_sync_blocks(a, 3);
    peer_book.add_peer(b);
    peer_book.set_connecting(c).unwrap();

    let bytes = peer_book.save();
    let loaded = PeerBook::load(&bytes).unwrap();

    // Every collection comes back exactly: states, counters, quality.
    assert!(loaded.is_connected(a));
    assert!(loaded.is_disconnected(b));
    assert!(loaded.is_connecting(c));
    assert_eq!(loaded.number_of_connecting_peers(), 1);
    assert_eq!(loaded.number_of_connected_peers(), 1);
    assert_eq!(loaded.number_of_disconnected_peers(), 1);
    let info = loaded.get_peer(a).unwrap();
    assert_eq!(info.connection_count, 1);
    assert_eq!(info.quality.last_ping_sent, Some(500));
    assert!(info.quality.expecting_pong);
    assert_eq!(info.quality.last_seen, Some(700));
    assert_eq!(info.quality.remaining_sync_blocks, 3);
    assert_eq!(loaded.get_peer(b).unwrap().connection_count, 0);

    // Saving the restored book gives back the very same bytes.
    assert_eq!(loaded.save(), bytes);
}

#[test]
fn load_rejects_corrupt_bytes() {
    assert!(PeerBook::load(&vec![1, 2, 3]).is_err());
    // Counts that do not match the remaining length.
    let mut bytes = vec![5, 0, 0, 0, 0, 0, 0, 0, 0, 0, 0, 0];
    bytes.extend_from_slice(&[0u8; 18]);
    assert!(PeerBook::load(&bytes).is_err());
    // A record whose state byte is out of range.
    let mut peer_book = PeerBook::default();
    peer_book.set_connected(localhost(4001), None).unwrap();
    let mut bytes = peer_book.save();
    let n = bytes.len();
    bytes[n - 81] = 9;
    assert!(PeerBook::load(&bytes).is_err());
}

#[test]
fn get_peer_on_an_unknown_address_fails() {
    let peer_book = PeerBook::default();
    assert!(peer_book.get_peer(localhost(1)).is_err());
}
