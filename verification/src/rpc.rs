//! The RPC endpoints' logic: chain and peer queries and transaction
//! submission over the node's own state.
//!
//! The endpoints speak hexadecimal strings. Reading transactions with
//! the ledger's cryptographic machinery is the collaborators' work;
//! their results enter as plain byte strings and verdicts.

use vstd::prelude::*;

use crate::consensus::Consensus;
use crate::errors::RpcError;
use crate::hexstr::{hex_decode, hex_encode, hex_of, hex_val, is_hex_digit};
use crate::mempool::{Entry, MemoryPool};
use crate::message::PeerAddress;
use crate::node::Node;
use crate::peer_info::PeerInfo;

verus! {

/// The plain fields of a block header and its transaction ids, as the
/// ledger collaborator reads them out of the serialized block.
#[derive(Clone, Debug)]
pub struct BlockHeaderComponents {
    /// The hash of the previous block's header.
    pub previous_block_hash: Vec<u8>,
    /// The transaction merkle root.
    pub merkle_root: Vec<u8>,
    /// The pedersen merkle root.
    pub pedersen_merkle_root: Vec<u8>,
    /// The proof of work.
    pub proof: Vec<u8>,
    /// The block's timestamp.
    pub time: i64,
    /// The difficulty target the block met.
    pub difficulty_target: u64,
    /// The nonce the miner found.
    pub nonce: u32,
    /// The identifiers of the block's transactions.
    pub transaction_ids: Vec<Vec<u8>>,
}

/// What an RPC caller learns about one block.
#[derive(Clone, Debug)]
pub struct BlockInfo {
    /// The block's header hash, as given by the caller.
    pub hash: String,
    /// The block's height; the block is always canonical here.
    pub height: u32,
    /// How many blocks stand on top of it; the tip has zero.
    pub confirmations: u32,
    /// The size of the serialized block in bytes.
    pub size: usize,
    /// The hash of the previous block's header, in hexadecimal.
    pub previous_block_hash: String,
    /// The transaction merkle root, in hexadecimal.
    pub merkle_root: String,
    /// The pedersen merkle root, in hexadecimal.
    pub pedersen_merkle_root_hash: String,
    /// The proof of work, in hexadecimal.
    pub proof: String,
    /// The block's timestamp.
    pub time: i64,
    /// The difficulty target the block met.
    pub difficulty_target: u64,
    /// The nonce the miner found.
    pub nonce: u32,
    /// The identifiers of the block's transactions, in hexadecimal.
    pub transactions: Vec<String>,
}

/// What an RPC caller learns about the node.
#[derive(Clone, Copy, Debug, PartialEq, Eq, Structural)]
pub struct NodeInfo {
    /// Whether the node mines blocks.
    pub is_miner: bool,
    /// Whether some peer still owes this node sync blocks.
    pub is_syncing: bool,
}

/// The plain fields of a transaction, as the ledger collaborator
/// decomposes it.
#[derive(Clone, Debug)]
pub struct TransactionComponents {
    /// The transaction's identifier.
    pub transaction_id: Vec<u8>,
    /// The serial numbers of the spent records.
    pub old_serial_numbers: Vec<Vec<u8>>,
    /// The commitments of the created records.
    pub new_commitments: Vec<Vec<u8>>,
    /// The memorandum field.
    pub memo: Vec<u8>,
    /// The network the transaction is for.
    pub network_id: u8,
    /// The ledger digest it was built against.
    pub digest: Vec<u8>,
    /// The zero-knowledge proof.
    pub transaction_proof: Vec<u8>,
    /// The program commitment.
    pub program_commitment: Vec<u8>,
    /// The local data root.
    pub local_data_root: Vec<u8>,
    /// The value balance in base units.
    pub value_balance: i64,
    /// The signatures.
    pub signatures: Vec<Vec<u8>>,
    /// The encrypted records.
    pub encrypted_records: Vec<Vec<u8>>,
}

/// What an RPC caller learns about one transaction: the components,
/// hexadecimal.
#[derive(Clone, Debug)]
pub struct TransactionInfo {
    /// The transaction's identifier.
    pub txid: String,
    /// The transaction's size on the wire, in bytes.
    pub size: usize,
    /// The serial numbers of the spent records.
    pub old_serial_numbers: Vec<String>,
    /// The commitments of the created records.
    pub new_commitments: Vec<String>,
    /// The memorandum field.
    pub memo: String,
    /// The network the transaction is for.
    pub network_id: u8,
    /// The ledger digest it was built against.
    pub digest: String,
    /// The zero-knowledge proof.
    pub transaction_proof: String,
    /// The program commitment.
    pub program_commitment: String,
    /// The local data root.
    pub local_data_root: String,
    /// The value balance in base units.
    pub value_balance: i64,
    /// The signatures.
    pub signatures: Vec<String>,
    /// The encrypted records.
    pub encrypted_records: Vec<String>,
    /// The height of the block holding the transaction, if any.
    pub block_number: Option<u32>,
}

/// The template a miner builds the next block from.
#[derive(Clone, Debug)]
pub struct BlockTemplate {
    /// The hash of the chain tip, in hexadecimal.
    pub previous_block_hash: String,
    /// The height the next block will have.
    pub block_height: u32,
    /// The wall-clock time the template was drawn, in milliseconds.
    pub time: i64,
    /// The difficulty target, as the consensus collaborator computes
    /// it.
    pub difficulty_target: u64,
    /// The serialized candidate transactions under the block-size
    /// budget.
    pub transactions: Vec<Vec<u8>>,
    /// The miner's reward, as the consensus collaborator computes it.
    pub coinbase_value: u64,
}

/// The listener addresses of the given records, in order.
pub open spec fn addresses_of(infos: Seq<PeerInfo>) -> Seq<PeerAddress> {
    infos.map_values(|p: PeerInfo| p.address)
}

/// The sum of the value balances, as unbounded arithmetic.
pub open spec fn sum_balances(s: Seq<i64>) -> int
    decreases s.len(),
{
    if s.len() == 0 {
        0
    } else {
        sum_balances(s.drop_last()) + s.last()
    }
}

/// The miner's reward for the next block: the block reward plus the
/// candidates' value balances, clamped into the unsigned range.
pub open spec fn coinbase_of(block_reward: u64, balances: Seq<i64>) -> u64 {
    let total = block_reward + sum_balances(balances);
    if total < 0 {
        0u64
    } else if total > u64::MAX {
        u64::MAX
    } else {
        total as u64
    }
}

/// Encodes each byte string as its hexadecimal spelling.
fn hex_list(v: &Vec<Vec<u8>>) -> (r: Vec<String>)
    ensures
        r@.len() == v@.len(),
        forall|i: int| 0 <= i < r@.len() ==> (#[trigger] r@[i])@ == hex_of(v@[i]@),
{
    let n = v.len();
    let mut out: Vec<String> = Vec::new();
    let mut i: usize = 0;
    while i < n
        invariant
            n == v@.len(),
            0 <= i <= n,
            out@.len() == i,
            forall|j: int| 0 <= j < i ==> (#[trigger] out@[j])@ == hex_of(v@[j]@),
        decreases n - i,
    {
        out.push(hex_encode(&v[i]));
        i = i + 1;
    }
    out
}

/// Adds the candidates' value balances to the block reward, clamped
/// into the unsigned range.
fn coinbase_value(block_reward: u64, balances: &Vec<i64>) -> (r: u64)
    requires
        balances@.len() <= 0x100000000,
    ensures
        r == coinbase_of(block_reward, balances@),
{
    let n = balances.len();
    let mut acc: i128 = block_reward as i128;
    let mut i: usize = 0;
    while i < n
        invariant
            n == balances@.len(),
            n <= 0x100000000,
            0 <= i <= n,
            acc == block_reward + sum_balances(balances@.take(i as int)),
            acc <= block_reward + (i as int) * (i64::MAX as int),
            acc >= (i as int) * (i64::MIN as int),
        decreases n - i,
    {
        proof {
            assert(balances@.take(i + 1).drop_last() =~= balances@.take(i as int));
            assert(balances@.take(i + 1).last() == balances@[i as int]);
        }
        acc = acc + (balances[i] as i128);
        i = i + 1;
    }
    proof {
        assert(balances@.take(n as int) =~= balances@);
    }
    if acc < 0 {
        0
    } else if acc > u64::MAX as i128 {
        u64::MAX
    } else {
        acc as u64
    }
}

/// Implements the RPC endpoint functions over a node.
#[derive(Clone, Debug)]
pub struct RpcImpl {
    /// The node the endpoints answer about.
    pub node: Node,
}

impl RpcImpl {
    /// Creates a new struct for calling the RPC endpoint functions.
    pub fn new(node: Node) -> (r: RpcImpl)
        ensures
            r.node == node,
    {
        RpcImpl { node }
    }

    /// The node's consensus component, if it runs one.
    pub fn consensus(&self) -> (r: Result<&Consensus, RpcError>)
        ensures
            r is Ok <==> self.node.consensus is Some,
            r is Ok ==> *r->Ok_0 == self.node.consensus->0,
            r is Err ==> r->Err_0 == RpcError::NoConsensus,
    {
        match &self.node.consensus {
            Some(c) => Ok(c),
            None => Err(RpcError::NoConsensus),
        }
    }

    /// The node's memory pool, if it runs a consensus component.
    pub fn memory_pool(&self) -> (r: Result<&MemoryPool, RpcError>)
        ensures
            r is Ok <==> self.node.consensus is Some,
            r is Ok ==> *r->Ok_0 == self.node.consensus->0.memory_pool,
            r is Err ==> r->Err_0 == RpcError::NoConsensus,
    {
        match &self.node.consensus {
            Some(c) => Ok(&c.memory_pool),
            None => Err(RpcError::NoConsensus),
        }
    }

    /// Returns the number of blocks in the canonical chain.
    pub fn get_block_count(&self) -> (r: Result<u32, RpcError>)
        requires
            self.node.wf(),
        ensures
            r is Ok <==> self.node.consensus is Some,
            r is Ok ==> r->Ok_0 == self.node.consensus->0.chain.spec_blocks().len(),
            r is Err ==> r->Err_0 == RpcError::NoConsensus,
    {
        match &self.node.consensus {
            Some(c) => {
                proof {
                    crate::chain::lemma_chain_bounds(c.chain);
                }
                Ok(c.chain.get_current_block_height() + 1)
            },
            None => Err(RpcError::NoConsensus),
        }
    }

    /// Returns the block hash of the head of the canonical chain, in
    /// hexadecimal.
    pub fn get_best_block_hash(&self) -> (r: Result<String, RpcError>)
        requires
            self.node.wf(),
        ensures
            r is Ok <==> self.node.consensus is Some,
            r is Ok ==> r->Ok_0@ == hex_of(
                self.node.consensus->0.chain.spec_hash_at(
                    self.node.consensus->0.chain.spec_height(),
                ),
            ),
            r is Err ==> r->Err_0 == RpcError::NoConsensus,
    {
        match &self.node.consensus {
            Some(c) => {
                let height = c.chain.get_current_block_height();
                match c.chain.get_block_hash(height) {
                    Some(h) => Ok(hex_encode(&h.0)),
                    None => Err(RpcError::NoConsensus),
                }
            },
            None => Err(RpcError::NoConsensus),
        }
    }

    /// Returns the block hash at the given height, in hexadecimal, if
    /// the canonical chain reaches it.
    pub fn get_block_hash(&self, block_height: u32) -> (r: Result<String, RpcError>)
        requires
            self.node.wf(),
        ensures
            r is Ok <==> (self.node.consensus is Some && block_height
                <= self.node.consensus->0.chain.spec_height()),
            r is Ok ==> r->Ok_0@ == hex_of(
                self.node.consensus->0.chain.spec_hash_at(block_height as int),
            ),
            self.node.consensus is None ==> r == Err::<String, RpcError>(RpcError::NoConsensus),
    {
        match &self.node.consensus {
            Some(c) => {
                match c.chain.get_block_hash(block_height) {
                    Some(h) => Ok(hex_encode(&h.0)),
                    None => Err(RpcError::InvalidBlockHash(String::new())),
                }
            },
            None => Err(RpcError::NoConsensus),
        }
    }

    /// Returns information about a canonical block from its hash in
    /// hexadecimal: its height, confirmations and size from this chain,
    /// and its header fields and transaction ids from the components
    /// the ledger collaborator read out of the block's bytes.
    pub fn get_block(&self, block_hash_string: &str, header: &BlockHeaderComponents) -> (r:
        Result<BlockInfo, RpcError>)
        requires
            self.node.wf(),
            self.node.consensus is Some,
        ensures
            ({
                let chain = self.node.consensus->0.chain;
                let valid_hex = block_hash_string@.len() == 64 && forall|i: int|
                    0 <= i < block_hash_string@.len() ==> is_hex_digit(
                        #[trigger] block_hash_string@[i],
                    );
                let hh = Seq::new(
                    32,
                    |i: int|
                        (hex_val(block_hash_string@[2 * i]) * 16 + hex_val(
                            block_hash_string@[2 * i + 1],
                        )) as u8,
                );
                &&& (r is Ok <==> (valid_hex && chain.spec_contains_hash(hh)))
                &&& r is Ok ==> ({
                    let info = r->Ok_0;
                    let h = chain.spec_height_of(hh);
                    &&& info.hash@ == block_hash_string@
                    &&& info.height == h
                    &&& info.confirmations == chain.spec_height() - h
                    &&& info.size == chain.spec_blocks()[h].bytes@.len()
                    &&& info.previous_block_hash@ == hex_of(header.previous_block_hash@)
                    &&& info.merkle_root@ == hex_of(header.merkle_root@)
                    &&& info.pedersen_merkle_root_hash@ == hex_of(header.pedersen_merkle_root@)
                    &&& info.proof@ == hex_of(header.proof@)
                    &&& info.time == header.time
                    &&& info.difficulty_target == header.difficulty_target
                    &&& info.nonce == header.nonce
                    &&& info.transactions@.len() == header.transaction_ids@.len()
                    &&& forall|i: int|
                        0 <= i < info.transactions@.len() ==> (#[trigger] info.transactions@[i])@
                            == hex_of(header.transaction_ids@[i]@)
                })
            }),
    {
        let bytes = match hex_decode(block_hash_string) {
            Some(b) => b,
            None => {
                return Err(RpcError::InvalidHexString);
            },
        };
        if bytes.len() != 32 {
            return Err(RpcError::InvalidBlockHash(block_hash_string.to_string()));
        }
        let hash = crate::message::BlockHeaderHash(bytes);
        proof {
            assert(hash@ =~= Seq::new(
                32,
                |i: int|
                    (hex_val(block_hash_string@[2 * i]) * 16 + hex_val(
                        block_hash_string@[2 * i + 1],
                    )) as u8,
            ));
        }
        match &self.node.consensus {
            Some(c) => {
                match c.chain.get_block_number(&hash) {
                    Some(h) => {
                        proof {
                            crate::chain::lemma_chain_bounds(c.chain);
                        }
                        let height = c.chain.get_current_block_height();
                        let size = match c.chain.get_block(&hash) {
                            Some(b) => b.len(),
                            None => 0,
                        };
                        Ok(
                            BlockInfo {
                                hash: block_hash_string.to_string(),
                                height: h,
                                confirmations: height - h,
                                size,
                                previous_block_hash: hex_encode(&header.previous_block_hash),
                                merkle_root: hex_encode(&header.merkle_root),
                                pedersen_merkle_root_hash: hex_encode(
                                    &header.pedersen_merkle_root,
                                ),
                                proof: hex_encode(&header.proof),
                                time: header.time,
                                difficulty_target: header.difficulty_target,
                                nonce: header.nonce,
                                transactions: hex_list(&header.transaction_ids),
                            },
                        )
                    },
                    None => Err(RpcError::InvalidBlockHash(block_hash_string.to_string())),
                }
            },
            None => Err(RpcError::NoConsensus),
        }
    }

    /// Fetches the number of connected peers this node has.
    pub fn get_connection_count(&self) -> (r: Result<usize, RpcError>)
        ensures
            r is Ok,
            r->Ok_0 == self.node.peer_book.spec_num_connected(),
    {
        Ok(self.node.peer_book.number_of_connected_peers())
    }

    /// Returns this node's connected peers' listener addresses.
    pub fn get_peer_info(&self) -> (r: Result<Vec<PeerAddress>, RpcError>)
        ensures
            r is Ok,
            r->Ok_0@ == addresses_of(self.node.peer_book.spec_connected_seq()),
    {
        let infos = self.node.peer_book.connected_peers();
        let n = infos.len();
        let mut out: Vec<PeerAddress> = Vec::new();
        let mut i: usize = 0;
        while i < n
            invariant
                n == infos@.len(),
                0 <= i <= n,
                out@.len() == i,
                forall|j: int| 0 <= j < i ==> #[trigger] out@[j] == infos@[j].address,
            decreases n - i,
        {
            out.push(infos[i].address);
            i = i + 1;
        }
        proof {
            assert(out@ =~= addresses_of(infos@));
        }
        Ok(out)
    }

    /// Returns data about the node: whether it mines, and whether it is
    /// catching up (some peer still owes it sync blocks).
    pub fn get_node_info(&self) -> (r: Result<NodeInfo, RpcError>)
        requires
            self.node.wf(),
        ensures
            r is Ok <==> self.node.consensus is Some,
            r is Ok ==> r->Ok_0.is_miner == self.node.consensus->0.is_miner
                && r->Ok_0.is_syncing == (exists|i: int|
                0 <= i < self.node.peer_book.spec_connected_seq().len() && (
                #[trigger] self.node.peer_book.spec_connected_seq()[
                i]).quality.remaining_sync_blocks != 0),
            r is Err ==> r->Err_0 == RpcError::NoConsensus,
    {
        let is_syncing = self.node.is_syncing_blocks();
        match &self.node.consensus {
            Some(c) => Ok(NodeInfo { is_miner: c.is_miner, is_syncing }),
            None => Err(RpcError::NoConsensus),
        }
    }

    /// Submits raw transaction bytes with the collaborators' verdicts:
    /// a transaction that verifies and spends nothing twice joins the
    /// memory pool, and its identifier is answered in hexadecimal.
    pub fn send_raw_transaction(
        &mut self,
        transaction_bytes: &Vec<u8>,
        transaction_id: &Vec<u8>,
        verified: bool,
        conflicts: bool,
    ) -> (r: Result<String, RpcError>)
        requires
            old(self).node.wf(),
            old(self).node.consensus is Some,
        ensures
            final(self).node.wf(),
            r is Ok,
            !verified ==> r->Ok_0@ == "Transaction did not verify"@ && *final(self) == *old(self),
            verified && conflicts ==> r->Ok_0@ == "Transaction contains spent records"@
                && *final(self) == *old(self),
            // Only the memory pool moves: the rest of the node survives
            // the call untouched.
            final(self).node.config == old(self).node.config,
            final(self).node.peer_book == old(self).node.peer_book,
            final(self).node.outstanding_nonces == old(self).node.outstanding_nonces,
            final(self).node.consensus is Some,
            final(self).node.consensus->0.chain == old(self).node.consensus->0.chain,
            final(self).node.consensus->0.max_block_size == old(
                self,
            ).node.consensus->0.max_block_size,
            final(self).node.consensus->0.is_miner == old(self).node.consensus->0.is_miner,
            final(self).node.consensus->0.memory_pool.spec_entry_sizes_ok(),
            verified && !conflicts ==> ({
                let pre = old(self).node.consensus->0.memory_pool;
                let post = final(self).node.consensus->0.memory_pool;
                &&& r->Ok_0@ == hex_of(transaction_id@)
                &&& post.spec_txs() == (if pre.spec_contains_tx(transaction_bytes@) {
                    pre.spec_txs()
                } else {
                    pre.spec_txs().push(transaction_bytes@)
                })
            }),
    {
        if !verified {
            proof {
                self.node.consensus->0.memory_pool.lemma_entry_sizes();
            }
            return Ok("Transaction did not verify".to_string());
        }
        if conflicts {
            proof {
                self.node.consensus->0.memory_pool.lemma_entry_sizes();
            }
            return Ok("Transaction contains spent records".to_string());
        }
        let id_hex = hex_encode(transaction_id);
        match &mut self.node.consensus {
            Some(c) => {
                let bytes = crate::codec::copy_range(
                    transaction_bytes,
                    0,
                    transaction_bytes.len(),
                );
                proof {
                    assert(bytes@ =~= transaction_bytes@);
                }
                let entry = Entry { size_in_bytes: bytes.len(), transaction: bytes };
                let _ = c.memory_pool.insert(entry);
                proof {
                    c.memory_pool.lemma_entry_sizes();
                }
            },
            None => {},
        }
        Ok(id_hex)
    }

    /// Returns the current template a miner would build the next block
    /// from: the tip hash, the next height, the pool's candidate
    /// transactions, and the coinbase value — the block reward the
    /// consensus rules grant at the next height plus the candidates'
    /// value balances. The reward and the balances, read out of the
    /// candidates by the ledger collaborator, enter as plain values,
    /// one balance per candidate.
    pub fn get_block_template(
        &self,
        difficulty_target: u64,
        block_reward: u64,
        value_balances: &Vec<i64>,
    ) -> (r: Result<BlockTemplate, RpcError>)
        requires
            self.node.wf(),
            self.node.consensus is Some ==> value_balances@.len()
                == crate::mempool::candidates_of(
                self.node.consensus->0.memory_pool.spec_txs(),
                self.node.consensus->0.max_block_size as int,
            ).len(),
            value_balances@.len() <= 0x100000000,
        ensures
            r is Ok <==> self.node.consensus is Some,
            r is Err ==> r->Err_0 == RpcError::NoConsensus,
            r is Ok ==> ({
                let t = r->Ok_0;
                let chain = self.node.consensus->0.chain;
                &&& t.previous_block_hash@ == hex_of(chain.spec_hash_at(chain.spec_height()))
                &&& t.block_height == chain.spec_height() + 1
                &&& crate::message::bytes_view(t.transactions@) == crate::mempool::candidates_of(
                    self.node.consensus->0.memory_pool.spec_txs(),
                    self.node.consensus->0.max_block_size as int,
                )
                &&& t.difficulty_target == difficulty_target
                &&& t.coinbase_value == coinbase_of(block_reward, value_balances@)
            }),
    {
        match &self.node.consensus {
            Some(c) => {
                proof {
                    crate::chain::lemma_chain_bounds(c.chain);
                }
                let height = c.chain.get_current_block_height();
                let previous_block_hash = match c.chain.get_block_hash(height) {
                    Some(h) => hex_encode(&h.0),
                    None => String::new(),
                };
                let transactions = c.memory_pool.get_candidates(c.max_block_size);
                let time = crate::clock::now_millis();
                let coinbase_value = coinbase_value(block_reward, value_balances);
                Ok(
                    BlockTemplate {
                        previous_block_hash,
                        block_height: height + 1,
                        time,
                        difficulty_target,
                        transactions,
                        coinbase_value,
                    },
                )
            },
            None => Err(RpcError::NoConsensus),
        }
    }

    /// Validates raw transaction bytes in hexadecimal: the string must
    /// decode, and the verdict on the decoded transaction is the
    /// consensus collaborator's, passed through as it stands.
    pub fn validate_raw_transaction(&self, transaction_bytes: &str, verified: bool) -> (r: Result<
        bool,
        RpcError,
    >)
        ensures
            r is Ok <==> (transaction_bytes@.len() % 2 == 0 && forall|i: int|
                0 <= i < transaction_bytes@.len() ==> is_hex_digit(
                    #[trigger] transaction_bytes@[i],
                )),
            r is Ok ==> r->Ok_0 == verified,
            r is Err ==> r->Err_0 == RpcError::InvalidHexString,
    {
        match hex_decode(transaction_bytes) {
            Some(_) => Ok(verified),
            None => Err(RpcError::InvalidHexString),
        }
    }

    /// Returns the hex-encoded bytes of a stored transaction from its
    /// identifier in hexadecimal. Looking the identifier up in the
    /// ledger store is the storage collaborator's work; what it found,
    /// if anything, enters as the stored bytes.
    pub fn get_raw_transaction(&self, transaction_id: &str, stored: Option<&Vec<u8>>) -> (r:
        Result<String, RpcError>)
        ensures
            ({
                let valid_hex = transaction_id@.len() % 2 == 0 && forall|i: int|
                    0 <= i < transaction_id@.len() ==> is_hex_digit(#[trigger] transaction_id@[i]);
                &&& (r is Ok <==> (valid_hex && stored is Some))
                &&& r is Ok ==> r->Ok_0@ == hex_of(stored->0@)
                &&& !valid_hex ==> r == Err::<String, RpcError>(RpcError::InvalidHexString)
                &&& valid_hex && stored is None ==> r == Err::<String, RpcError>(
                    RpcError::UnknownTransaction,
                )
            }),
    {
        match hex_decode(transaction_id) {
            Some(_) => {},
            None => {
                return Err(RpcError::InvalidHexString);
            },
        }
        match stored {
            Some(bytes) => Ok(hex_encode(bytes)),
            None => Err(RpcError::UnknownTransaction),
        }
    }

    /// Returns information about a stored transaction from its
    /// identifier in hexadecimal: the composition of `get_raw_transaction`
    /// with `decode_raw_transaction`, over the bytes the storage
    /// collaborator found and the components the ledger collaborator
    /// read out of them.
    pub fn get_transaction_info(
        &self,
        transaction_id: &str,
        stored: Option<&Vec<u8>>,
        components: &TransactionComponents,
        block_number: Option<u32>,
    ) -> (r: Result<TransactionInfo, RpcError>)
        ensures
            ({
                let valid_hex = transaction_id@.len() % 2 == 0 && forall|i: int|
                    0 <= i < transaction_id@.len() ==> is_hex_digit(#[trigger] transaction_id@[i]);
                &&& (r is Ok <==> (valid_hex && stored is Some))
                &&& r is Ok ==> ({
                    let info = r->Ok_0;
                    &&& info.txid@ == hex_of(components.transaction_id@)
                    &&& info.size == stored->0@.len()
                    &&& info.block_number == block_number
                })
            }),
    {
        match self.get_raw_transaction(transaction_id, stored) {
            Ok(_) => {},
            Err(e) => {
                return Err(e);
            },
        }
        let size = match stored {
            Some(bytes) => bytes.len(),
            None => 0,
        };
        Ok(RpcImpl::decode_raw_transaction(components, size, block_number))
    }

    /// Assembles the caller-facing record of a decoded transaction from
    /// its plain components: every byte field in hexadecimal.
    pub fn decode_raw_transaction(
        components: &TransactionComponents,
        size: usize,
        block_number: Option<u32>,
    ) -> (r: TransactionInfo)
        ensures
            r.txid@ == hex_of(components.transaction_id@),
            r.size == size,
            r.old_serial_numbers@.len() == components.old_serial_numbers@.len(),
            forall|i: int|
                0 <= i < r.old_serial_numbers@.len() ==> (#[trigger] r.old_serial_numbers@[i])@
                    == hex_of(components.old_serial_numbers@[i]@),
            r.new_commitments@.len() == components.new_commitments@.len(),
            forall|i: int|
                0 <= i < r.new_commitments@.len() ==> (#[trigger] r.new_commitments@[i])@
                    == hex_of(components.new_commitments@[i]@),
            r.memo@ == hex_of(components.memo@),
            r.network_id == components.network_id,
            r.digest@ == hex_of(components.digest@),
            r.transaction_proof@ == hex_of(components.transaction_proof@),
            r.program_commitment@ == hex_of(components.program_commitment@),
            r.local_data_root@ == hex_of(components.local_data_root@),
            r.value_balance == components.value_balance,
            r.signatures@.len() == components.signatures@.len(),
            forall|i: int|
                0 <= i < r.signatures@.len() ==> (#[trigger] r.signatures@[i])@ == hex_of(
                    components.signatures@[i]@,
                ),
            r.encrypted_records@.len() == components.encrypted_records@.len(),
            forall|i: int|
                0 <= i < r.encrypted_records@.len() ==> (#[trigger] r.encrypted_records@[i])@
                    == hex_of(components.encrypted_records@[i]@),
            r.block_number == block_number,
    {
        TransactionInfo {
            txid: hex_encode(&components.transaction_id),
            size,
            old_serial_numbers: hex_list(&components.old_serial_numbers),
            new_commitments: hex_list(&components.new_commitments),
            memo: hex_encode(&components.memo),
            network_id: components.network_id,
            digest: hex_encode(&components.digest),
            transaction_proof: hex_encode(&components.transaction_proof),
            program_commitment: hex_encode(&components.program_commitment),
            local_data_root: hex_encode(&components.local_data_root),
            value_balance: components.value_balance,
            signatures: hex_list(&components.signatures),
            encrypted_records: hex_list(&components.encrypted_records),
            block_number,
        }
    }
}

} // verus!
