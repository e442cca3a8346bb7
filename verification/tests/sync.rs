use snarkos_network::chain::ChainState;
use snarkos_network::consensus::{BlockVerdict, Consensus};
use snarkos_network::mempool::{Entry, MemoryPool};
use snarkos_network::message::{BlockHeaderHash, Direction, Payload, PeerAddress};
use snarkos_network::node::{Config, Node};

const BLOCK_1: &[u8] = &[1, 1, 1, 1, 10];
const BLOCK_2: &[u8] = &[2, 2, 2, 2, 20];
const TRANSACTION_1: &[u8] = &[31, 31, 31];
const TRANSACTION_2: &[u8] = &[32, 32, 32, 32];

fn hash(seed: u8) -> BlockHeaderHash {
    BlockHeaderHash::new(vec![seed; 32])
}

fn genesis_chain() -> ChainState {
    ChainState::new(hash(0), vec![0, 0, 0])
}

fn test_node() -> Node {
    let consensus = Consensus::new(genesis_chain(), MemoryPool::new(), 2 * 1024 * 1024, false);
    Node::new(Config::new(), Some(consensus))
}

fn addr(port: u16) -> PeerAddress {
    PeerAddress::new(0x7f000001, port)
}

#[test]
fn block_responder_side() {
    let mut node = test_node();
    let peer = addr(4032);

    // Insert block 1 via the consensus component.
    let consensus = node.consensus.as_mut().unwrap();
    let verdict = BlockVerdict::Valid(hash(1));
    consensus
        .received_block(peer, &BLOCK_1.to_vec(), None, &verdict, false)
        .unwrap();

    // A GetSync with an empty locator: only genesis is shared.
    let consensus = node.consensus.as_ref().unwrap();
    let reply = consensus.received_get_sync(peer, &vec![]);
    assert_eq!(reply.direction, Direction::Outbound(peer));
    let sync = match reply.payload {
        Payload::Sync(hashes) => hashes,
        other => panic!("expected a Sync payload, got {:?}", other),
    };
    assert_eq!(sync.len(), 1);
    assert_eq!(sync[0], hash(1));

    // Request the block; a SyncBlock with its bytes comes back.
    let msgs = consensus.received_get_blocks(peer, &vec![hash(1)]).unwrap();
    assert_eq!(msgs.len(), 1);
    match &msgs[0].payload {
        Payload::SyncBlock(bytes) => assert_eq!(bytes, &BLOCK_1.to_vec()),
        other => panic!("expected a SyncBlock payload, got {:?}", other),
    }
}

#[test]
fn block_initiator_side() {
    let mut node = test_node();
    let peer = addr(4033);

    // A Ping from a peer two blocks ahead: Pong, then GetSync.
    let msgs = node.received_ping(peer, 2);
    assert_eq!(msgs.len(), 2);
    assert_eq!(msgs[0].payload, Payload::Pong);
    assert!(matches!(msgs[1].payload, Payload::GetSync(..)));

    // The peer answers with the two missing hashes.
    node.peer_book.set_connected(peer, None).unwrap();
    let msgs = node.received_sync(peer, &vec![hash(1), hash(2)]);
    assert_eq!(msgs.len(), 1);
    let requested = match &msgs[0].payload {
        Payload::GetBlocks(hashes) => hashes.clone(),
        other => panic!("expected a GetBlocks payload, got {:?}", other),
    };
    assert!(requested.contains(&hash(1)) && requested.contains(&hash(2)));

    // The blocks arrive; both join the chain.
    node.received_sync_block(peer, &BLOCK_1.to_vec(), &BlockVerdict::Valid(hash(1)))
        .unwrap();
    node.received_sync_block(peer, &BLOCK_2.to_vec(), &BlockVerdict::Valid(hash(2)))
        .unwrap();

    let chain = &node.consensus.as_ref().unwrap().chain;
    assert!(chain.block_hash_exists(&hash(1)));
    assert!(chain.block_hash_exists(&hash(2)));
}

#[test]
fn block_propagation() {
    let mut node = test_node();
    let miner = addr(4034);
    let other = addr(4035);
    node.peer_book.set_connected(miner, None).unwrap();
    node.peer_book.set_connected(other, None).unwrap();

    let peers = node.peer_book.connected_peers();
    let consensus = node.consensus.as_mut().unwrap();
    let msgs = consensus
        .received_block(
            miner,
            &BLOCK_1.to_vec(),
            Some(&peers),
            &BlockVerdict::Valid(hash(1)),
            false,
        )
        .unwrap();

    // The fresh block goes to everyone but the miner.
    assert_eq!(msgs.len(), 1);
    assert_eq!(msgs[0].direction, Direction::Outbound(other));
    assert!(matches!(msgs[0].payload, Payload::Block(..)));
}

#[test]
fn sync_blocks_are_never_retransmitted() {
    let mut node = test_node();
    let peer = addr(4036);
    node.peer_book.set_connected(peer, None).unwrap();

    let msgs = node
        .received_sync_block(peer, &BLOCK_1.to_vec(), &BlockVerdict::Valid(hash(1)))
        .unwrap();
    assert!(msgs.is_empty());
}

#[test]
fn oversize_blocks_are_refused() {
    let mut node = test_node();
    let peer = addr(4037);
    let consensus = node.consensus.as_mut().unwrap();
    let big = vec![0u8; 2 * 1024 * 1024 + 1];
    let r = consensus.received_block(peer, &big, None, &BlockVerdict::Valid(hash(9)), false);
    assert!(r.is_err());
}

#[test]
fn no_propagation_while_syncing() {
    let mut node = test_node();
    let miner = addr(4038);
    let other = addr(4039);
    node.peer_book.set_connected(miner, None).unwrap();
    node.peer_book.set_connected(other, None).unwrap();

    let peers = node.peer_book.connected_peers();
    let consensus = node.consensus.as_mut().unwrap();
    let msgs = consensus
        .received_block(
            miner,
            &BLOCK_1.to_vec(),
            Some(&peers),
            &BlockVerdict::Valid(hash(1)),
            true,
        )
        .unwrap();
    assert!(msgs.is_empty());
}

#[test]
fn block_two_node() {
    // Alice holds a long chain; Bob pulls it over in rounds.
    const NUM_BLOCKS: u8 = 100;

    let mut alice = test_node();
    {
        let consensus = alice.consensus.as_mut().unwrap();
        for i in 1..=NUM_BLOCKS {
            let verdict = BlockVerdict::Valid(hash(i));
            consensus
                .received_block(addr(1), &vec![i; 8], None, &verdict, false)
                .unwrap();
        }
    }

    let mut bob = test_node();
    let alice_addr = addr(4131);
    let bob_addr = addr(4132);
    alice.peer_book.set_connected(bob_addr, None).unwrap();
    bob.peer_book.set_connected(alice_addr, None).unwrap();

    // Bob keeps asking until his chain has caught up.
    loop {
        let locator = bob.consensus.as_ref().unwrap().chain.get_block_locator_hashes();
        let reply = alice
            .consensus
            .as_ref()
            .unwrap()
            .received_get_sync(bob_addr, &locator);
        let hashes = match reply.payload {
            Payload::Sync(hashes) => hashes,
            other => panic!("expected a Sync payload, got {:?}", other),
        };
        if hashes.is_empty() {
            break;
        }
        let requests = bob.received_sync(alice_addr, &hashes);
        for request in requests {
            let wanted = match request.payload {
                Payload::GetBlocks(hs) => hs,
                other => panic!("expected a GetBlocks payload, got {:?}", other),
            };
            let replies = alice
                .consensus
                .as_ref()
                .unwrap()
                .received_get_blocks(bob_addr, &wanted)
                .unwrap();
            for (reply, h) in replies.into_iter().zip(wanted.iter()) {
                let bytes = match reply.payload {
                    Payload::SyncBlock(bytes) => bytes,
                    other => panic!("expected a SyncBlock payload, got {:?}", other),
                };
                bob.received_sync_block(alice_addr, &bytes, &BlockVerdict::Valid(h.clone()))
                    .unwrap();
            }
        }
    }

    let alice_height = alice.consensus.as_ref().unwrap().chain.get_current_block_height();
    let bob_height = bob.consensus.as_ref().unwrap().chain.get_current_block_height();
    assert_eq!(alice_height, NUM_BLOCKS as u32);
    assert_eq!(bob_height, NUM_BLOCKS as u32);
}

#[test]
fn transaction_initiator_side() {
    let mut node = test_node();

    // The peer answers the tx-sync tick with its pool.
    let txs = vec![TRANSACTION_1.to_vec(), TRANSACTION_2.to_vec()];
    let accepted = vec![true, true];
    node.received_memory_pool(&txs, &accepted);

    let pool = &node.consensus.as_ref().unwrap().memory_pool;
    let entry_1 = Entry { size_in_bytes: TRANSACTION_1.len(), transaction: TRANSACTION_1.to_vec() };
    let entry_2 = Entry { size_in_bytes: TRANSACTION_2.len(), transaction: TRANSACTION_2.to_vec() };
    assert!(pool.contains(&entry_1));
    assert!(pool.contains(&entry_2));
}

#[test]
fn transaction_responder_side() {
    let mut node = test_node();
    let peer = addr(4040);

    {
        let pool = &mut node.consensus.as_mut().unwrap().memory_pool;
        pool.insert(Entry { size_in_bytes: TRANSACTION_1.len(), transaction: TRANSACTION_1.to_vec() })
            .unwrap();
        pool.insert(Entry { size_in_bytes: TRANSACTION_2.len(), transaction: TRANSACTION_2.to_vec() })
            .unwrap();
    }

    let reply = node.received_get_memory_pool(peer);
    let txs = match reply.payload {
        Payload::MemoryPool(txs) => txs,
        other => panic!("expected a MemoryPool payload, got {:?}", other),
    };
    assert!(txs.contains(&TRANSACTION_1.to_vec()));
    assert!(txs.contains(&TRANSACTION_2.to_vec()));
}

#[test]
fn transaction_two_node() {
    let mut alice = test_node();
    let mut bob = test_node();
    let alice_addr = addr(4141);
    let bob_addr = addr(4142);
    alice.peer_book.set_connected(bob_addr, None).unwrap();
    bob.peer_book.set_connected(alice_addr, None).unwrap();

    {
        let pool = &mut alice.consensus.as_mut().unwrap().memory_pool;
        pool.insert(Entry { size_in_bytes: TRANSACTION_1.len(), transaction: TRANSACTION_1.to_vec() })
            .unwrap();
    }

    // Bob asks on his tx-sync tick; Alice answers; Bob takes it in.
    let reply = alice.received_get_memory_pool(bob_addr);
    let txs = match reply.payload {
        Payload::MemoryPool(txs) => txs,
        other => panic!("expected a MemoryPool payload, got {:?}", other),
    };
    let accepted = vec![true; txs.len()];
    bob.received_memory_pool(&txs, &accepted);

    let entry = Entry { size_in_bytes: TRANSACTION_1.len(), transaction: TRANSACTION_1.to_vec() };
    assert!(bob.consensus.as_ref().unwrap().memory_pool.contains(&entry));
}

#[test]
fn memory_pool_processing_is_idempotent() {
    let mut node = test_node();
    let txs = vec![TRANSACTION_1.to_vec(), TRANSACTION_2.to_vec(), TRANSACTION_1.to_vec()];
    let accepted = vec![true, false, true];

    node.received_memory_pool(&txs, &accepted);
    let first = node.consensus.as_ref().unwrap().memory_pool.clone();

    node.received_memory_pool(&txs, &accepted);
    let second = &node.consensus.as_ref().unwrap().memory_pool;

    let entry_1 = Entry { size_in_bytes: TRANSACTION_1.len(), transaction: TRANSACTION_1.to_vec() };
    let entry_2 = Entry { size_in_bytes: TRANSACTION_2.len(), transaction: TRANSACTION_2.to_vec() };
    assert!(first.contains(&entry_1) && second.contains(&entry_1));
    assert!(!first.contains(&entry_2) && !second.contains(&entry_2));
    assert_eq!(second.get_candidates(1024), first.get_candidates(1024));
}

#[test]
fn transaction_gossip_excludes_the_sender() {
    let mut node = test_node();
    let sender = addr(4043);
    let other = addr(4044);
    node.peer_book.set_connected(sender, None).unwrap();
    node.peer_book.set_connected(other, None).unwrap();

    let msgs = node.received_transaction(sender, &TRANSACTION_1.to_vec(), true);
    assert_eq!(msgs.len(), 1);
    assert_eq!(msgs[0].direction, Direction::Outbound(other));
    assert!(matches!(msgs[0].payload, Payload::Transaction(..)));

    // The same transaction again spreads nothing.
    let msgs = node.received_transaction(sender, &TRANSACTION_1.to_vec(), true);
    assert!(msgs.is_empty());
}

#[test]
fn block_sync_tick_asks_the_most_recent_peer() {
    let mut node = test_node();
    assert!(node.block_sync_tick().is_none());

    let a = addr(7002);
    let b = addr(7003);
    node.peer_book.set_connected(a, None).unwrap();
    node.peer_book.set_connected(b, None).unwrap();
    node.peer_book.update_last_seen_at(a, 10);
    node.peer_book.update_last_seen_at(b, 20);

    let m = node.block_sync_tick().unwrap();
    assert_eq!(m.direction, Direction::Outbound(b));
    assert!(matches!(m.payload, Payload::GetSync(..)));
}

#[test]
fn get_blocks_for_an_unknown_hash_fails() {
    let node = test_node();
    let consensus = node.consensus.as_ref().unwrap();
    let r = consensus.received_get_blocks(addr(1), &vec![hash(200)]);
    assert!(r.is_err());
}
