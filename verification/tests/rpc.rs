use snarkos_network::chain::ChainState;
use snarkos_network::consensus::{BlockVerdict, Consensus};
use snarkos_network::hexstr::{hex_decode, hex_encode};
use snarkos_network::mempool::MemoryPool;
use snarkos_network::message::{BlockHeaderHash, PeerAddress};
use snarkos_network::node::{Config, Node};
use snarkos_network::rpc::{BlockHeaderComponents, RpcImpl, TransactionComponents};

fn test_header() -> BlockHeaderComponents {
    BlockHeaderComponents {
        previous_block_hash: vec![0xaa; 2],
        merkle_root: vec![0xbb],
        pedersen_merkle_root: vec![0xcc],
        proof: vec![0xdd],
        time: 77,
        difficulty_target: 500,
        nonce: 9,
        transaction_ids: vec![vec![0x0e], vec![0x0f]],
    }
}

fn hash(seed: u8) -> BlockHeaderHash {
    BlockHeaderHash::new(vec![seed; 32])
}

fn addr(port: u16) -> PeerAddress {
    PeerAddress::new(0x7f000001, port)
}

fn test_rpc() -> RpcImpl {
    let chain = ChainState::new(hash(0), vec![9, 9]);
    let consensus = Consensus::new(chain, MemoryPool::new(), 2 * 1024 * 1024, false);
    RpcImpl::new(Node::new(Config::new(), Some(consensus)))
}

#[test]
fn hex_round_trips() {
    assert_eq!(hex_encode(&vec![1, 2, 3, 15, 16]), "0102030f10");
    assert_eq!(hex_decode("0102030f10"), Some(vec![1, 2, 3, 15, 16]));
    assert_eq!(hex_decode("F9B4CA"), Some(vec![0xf9, 0xb4, 0xca]));
    assert_eq!(hex_decode("123"), None);
    assert_eq!(hex_decode("zz"), None);
}

#[test]
fn get_block_count_counts_genesis() {
    let rpc = test_rpc();
    assert_eq!(rpc.get_block_count().unwrap(), 1);
}

#[test]
fn get_best_block_hash_is_the_tip_in_hex() {
    let mut rpc = test_rpc();
    assert_eq!(rpc.get_best_block_hash().unwrap(), hex_encode(&vec![0u8; 32]));

    let consensus = rpc.node.consensus.as_mut().unwrap();
    consensus
        .received_block(addr(1), &vec![1, 2, 3], None, &BlockVerdict::Valid(hash(7)), false)
        .unwrap();
    assert_eq!(rpc.get_best_block_hash().unwrap(), hex_encode(&vec![7u8; 32]));
}

#[test]
fn get_block_hash_by_height() {
    let rpc = test_rpc();
    assert_eq!(rpc.get_block_hash(0).unwrap(), hex_encode(&vec![0u8; 32]));
    assert!(rpc.get_block_hash(1).is_err());
}

#[test]
fn get_block_reports_height_confirmations_and_size() {
    let mut rpc = test_rpc();
    let consensus = rpc.node.consensus.as_mut().unwrap();
    consensus
        .received_block(addr(1), &vec![5, 5, 5, 5], None, &BlockVerdict::Valid(hash(7)), false)
        .unwrap();

    let header = test_header();
    let info = rpc.get_block(&hex_encode(&vec![7u8; 32]), &header).unwrap();
    assert_eq!(info.height, 1);
    assert_eq!(info.confirmations, 0);
    assert_eq!(info.size, 4);
    assert_eq!(info.previous_block_hash, "aaaa");
    assert_eq!(info.merkle_root, "bb");
    assert_eq!(info.pedersen_merkle_root_hash, "cc");
    assert_eq!(info.proof, "dd");
    assert_eq!(info.time, 77);
    assert_eq!(info.difficulty_target, 500);
    assert_eq!(info.nonce, 9);
    assert_eq!(info.transactions, vec!["0e".to_string(), "0f".to_string()]);

    let genesis = rpc.get_block(&hex_encode(&vec![0u8; 32]), &header).unwrap();
    assert_eq!(genesis.height, 0);
    assert_eq!(genesis.confirmations, 1);

    assert!(rpc.get_block("zz", &header).is_err());
    assert!(rpc.get_block(&hex_encode(&vec![9u8; 32]), &header).is_err());
}

#[test]
fn get_connection_count_and_peer_info() {
    let mut rpc = test_rpc();
    rpc.node.peer_book.set_connected(addr(1), None).unwrap();
    rpc.node.peer_book.set_connected(addr(2), None).unwrap();
    assert_eq!(rpc.get_connection_count().unwrap(), 2);
    assert_eq!(rpc.get_peer_info().unwrap(), vec![addr(1), addr(2)]);
}

#[test]
fn get_node_info_reports_syncing() {
    let mut rpc = test_rpc();
    let info = rpc.get_node_info().unwrap();
    assert!(!info.is_miner);
    assert!(!info.is_syncing);

    rpc.node.peer_book.set_connected(addr(1), None).unwrap();
    rpc.node.peer_book.expecting_sync_blocks(addr(1), 3);
    assert!(rpc.get_node_info().unwrap().is_syncing);
}

#[test]
fn send_raw_transaction_inserts_and_answers_the_id() {
    let mut rpc = test_rpc();
    let tx = vec![1, 2, 3];
    let id = vec![0xaa, 0xbb];

    let r = rpc.send_raw_transaction(&tx, &id, false, false).unwrap();
    assert_eq!(r, "Transaction did not verify");

    let r = rpc.send_raw_transaction(&tx, &id, true, true).unwrap();
    assert_eq!(r, "Transaction contains spent records");

    let r = rpc.send_raw_transaction(&tx, &id, true, false).unwrap();
    assert_eq!(r, "aabb");
    let pool = rpc.memory_pool().unwrap();
    let entry = snarkos_network::mempool::Entry { size_in_bytes: 3, transaction: tx.clone() };
    assert!(pool.contains(&entry));
}

#[test]
fn decode_raw_transaction_spells_components_in_hex() {
    let components = TransactionComponents {
        transaction_id: vec![0xab, 0xcd],
        old_serial_numbers: vec![vec![1], vec![2]],
        new_commitments: vec![vec![3]],
        memo: vec![4, 5],
        network_id: 1,
        digest: vec![6],
        transaction_proof: vec![7],
        program_commitment: vec![8],
        local_data_root: vec![9],
        value_balance: -5,
        signatures: vec![vec![10]],
        encrypted_records: vec![vec![11]],
    };
    let info = RpcImpl::decode_raw_transaction(&components, 42, Some(3));
    assert_eq!(info.txid, "abcd");
    assert_eq!(info.size, 42);
    assert_eq!(info.old_serial_numbers, vec!["01".to_string(), "02".to_string()]);
    assert_eq!(info.new_commitments, vec!["03".to_string()]);
    assert_eq!(info.memo, "0405");
    assert_eq!(info.network_id, 1);
    assert_eq!(info.digest, "06");
    assert_eq!(info.transaction_proof, "07");
    assert_eq!(info.program_commitment, "08");
    assert_eq!(info.local_data_root, "09");
    assert_eq!(info.value_balance, -5);
    assert_eq!(info.signatures, vec!["0a".to_string()]);
    assert_eq!(info.encrypted_records, vec!["0b".to_string()]);
    assert_eq!(info.block_number, Some(3));
}

#[test]
fn get_block_template_carries_the_tip_and_the_candidates() {
    let mut rpc = test_rpc();
    {
        let pool = &mut rpc.node.consensus.as_mut().unwrap().memory_pool;
        pool.insert(snarkos_network::mempool::Entry { size_in_bytes: 2, transaction: vec![1, 2] })
            .unwrap();
    }
    // One candidate with a negative value balance: the coinbase is the
    // reward plus the balances.
    let template = rpc.get_block_template(1000, 150, &vec![-30]).unwrap();
    assert_eq!(template.previous_block_hash, hex_encode(&vec![0u8; 32]));
    assert_eq!(template.block_height, 1);
    assert_eq!(template.transactions, vec![vec![1, 2]]);
    assert_eq!(template.difficulty_target, 1000);
    assert_eq!(template.coinbase_value, 120);
}

#[test]
fn validate_and_fetch_raw_transactions() {
    let rpc = test_rpc();
    assert_eq!(rpc.validate_raw_transaction("0102", true).unwrap(), true);
    assert_eq!(rpc.validate_raw_transaction("0102", false).unwrap(), false);
    assert!(rpc.validate_raw_transaction("xy", true).is_err());

    let stored = vec![0x01, 0xff];
    assert_eq!(rpc.get_raw_transaction("abcd", Some(&stored)).unwrap(), "01ff");
    assert!(rpc.get_raw_transaction("abcd", None).is_err());
    assert!(rpc.get_raw_transaction("zz", Some(&stored)).is_err());
}

#[test]
fn get_transaction_info_composes_lookup_and_decode() {
    let rpc = test_rpc();
    let stored = vec![9u8; 42];
    let components = TransactionComponents {
        transaction_id: vec![0xab, 0xcd],
        old_serial_numbers: vec![],
        new_commitments: vec![],
        memo: vec![],
        network_id: 1,
        digest: vec![],
        transaction_proof: vec![],
        program_commitment: vec![],
        local_data_root: vec![],
        value_balance: 0,
        signatures: vec![],
        encrypted_records: vec![],
    };
    let info = rpc.get_transaction_info("abcd", Some(&stored), &components, Some(2)).unwrap();
    assert_eq!(info.txid, "abcd");
    assert_eq!(info.size, 42);
    assert_eq!(info.block_number, Some(2));
    assert!(rpc.get_transaction_info("abcd", None, &components, None).is_err());
}

#[test]
fn endpoints_fail_without_a_consensus_component() {
    let rpc = RpcImpl::new(Node::new(Config::new(), None));
    assert!(rpc.consensus().is_err());
    assert!(rpc.memory_pool().is_err());
    assert!(rpc.get_block_count().is_err());
    assert!(rpc.get_node_info().is_err());
}
