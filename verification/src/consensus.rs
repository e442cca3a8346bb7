//! The sync engine: how the node answers and drives block
//! synchronization and what it propagates.
//!
//! Every handler is a pure decision: it reads the chain and the memory
//! pool, takes the consensus collaborator's verdicts as plain values,
//! and returns the messages to be sent. Performing the sends is I/O and
//! stays outside the library.

use vstd::prelude::*;

use crate::chain::{insert_block_rel, spec_latest_shared, sync_response_ok, ChainState};
use crate::codec::copy_range;
use crate::errors::NetworkError;
use crate::mempool::MemoryPool;
use crate::message::{
    hashes_view, BlockHeaderHash, Direction, Message, Payload, PeerAddress,
};
use crate::peer_info::PeerInfo;
use crate::MAX_BLOCK_SYNC_COUNT;

verus! {

/// The consensus collaborator's verdict on a received block: the header
/// hash it computed when the block verified, or a rejection.
#[derive(Clone, Debug)]
pub enum BlockVerdict {
    /// The block verified; it is known by this header hash.
    Valid(BlockHeaderHash),
    /// The block did not verify.
    Invalid,
}

/// The addresses of the given peers, keeping order, without the one to
/// exclude.
pub open spec fn targets_of(infos: Seq<PeerInfo>, excl: PeerAddress) -> Seq<PeerAddress>
    decreases infos.len(),
{
    if infos.len() == 0 {
        Seq::empty()
    } else {
        targets_of(infos.drop_last(), excl) + (if infos.last().address != excl {
            seq![infos.last().address]
        } else {
            Seq::empty()
        })
    }
}

/// Whether the messages carry the given payload bytes as `Block`s to
/// exactly the given targets, in order.
pub open spec fn is_block_broadcast(
    msgs: Seq<Message>,
    targets: Seq<PeerAddress>,
    bytes: Seq<u8>,
) -> bool {
    &&& msgs.len() == targets.len()
    &&& forall|i: int|
        #![trigger msgs[i]]
        0 <= i < msgs.len() ==> (msgs[i].payload matches Payload::Block(b) && msgs[i].direction
            == Direction::Outbound(targets[i]) && b@ == bytes)
}

/// The block-synchronization side of the node.
#[derive(Clone, Debug)]
pub struct Consensus {
    /// The canonical chain.
    pub chain: ChainState,
    /// The memory pool of unconfirmed transactions.
    pub memory_pool: MemoryPool,
    /// The cap on a serialized block's size.
    pub max_block_size: usize,
    /// Whether this node mines blocks itself.
    pub is_miner: bool,
}

impl Consensus {
    /// The component's invariant: chain and pool are each well formed.
    pub open spec fn wf(self) -> bool {
        &&& self.chain.wf()
        &&& self.memory_pool.wf()
    }

    /// Builds a consensus component over the given chain and pool.
    pub fn new(chain: ChainState, memory_pool: MemoryPool, max_block_size: usize, is_miner: bool)
        -> (r: Consensus)
        ensures
            r.chain == chain,
            r.memory_pool == memory_pool,
            r.max_block_size == max_block_size,
            r.is_miner == is_miner,
    {
        Consensus { chain, memory_pool, max_block_size, is_miner }
    }

    /// Starts a sync round against the chosen sync node: the `GetSync`
    /// message carrying this chain's block locator.
    pub fn update_blocks(&self, sync_node: PeerAddress) -> (m: Message)
        requires
            self.wf(),
        ensures
            m.direction == Direction::Outbound(sync_node),
            m.payload matches Payload::GetSync(hs) && crate::chain::is_locator_of(
                self.chain,
                hs@,
            ),
    {
        let locator = self.chain.get_block_locator_hashes();
        Message::new(Direction::Outbound(sync_node), Payload::GetSync(locator))
    }

    /// The `Block` messages that hand a block on to every connected
    /// peer but the one it came from.
    pub fn propagate_block(
        &self,
        block_bytes: &Vec<u8>,
        block_miner: PeerAddress,
        connected_peers: &Vec<PeerInfo>,
    ) -> (r: Vec<Message>)
        ensures
            is_block_broadcast(r@, targets_of(connected_peers@, block_miner), block_bytes@),
    {
        let n = connected_peers.len();
        let mut out: Vec<Message> = Vec::new();
        proof {
            assert(connected_peers@.take(0) =~= Seq::<PeerInfo>::empty());
        }
        let mut i: usize = 0;
        while i < n
            invariant
                n == connected_peers@.len(),
                0 <= i <= n,
                is_block_broadcast(
                    out@,
                    targets_of(connected_peers@.take(i as int), block_miner),
                    block_bytes@,
                ),
            decreases n - i,
        {
            let ghost old_out = out@;
            let ghost prefix = connected_peers@.take(i as int);
            let addr = connected_peers[i].address;
            if !(addr == block_miner) {
                let bytes = copy_range(block_bytes, 0, block_bytes.len());
                out.push(Message::new(Direction::Outbound(addr), Payload::Block(bytes)));
            }
            proof {
                let prefix2 = connected_peers@.take(i + 1);
                assert(prefix2.drop_last() =~= prefix);
                assert(prefix2.last() == connected_peers@[i as int]);
                let t2 = targets_of(prefix2, block_miner);
                let t1 = targets_of(prefix, block_miner);
                if addr == block_miner {
                    assert(t2 =~= t1);
                } else {
                    assert(t2 =~= t1.push(addr));
                }
                assert forall|j: int| #![trigger out@[j]] 0 <= j < out@.len() implies (out@[
                j].payload matches Payload::Block(b) && out@[j].direction == Direction::Outbound(
                    t2[j],
                ) && b@ == block_bytes@) by {
                    if j < old_out.len() {
                        assert(out@[j] == old_out[j]);
                        assert(t2[j] == t1[j]);
                    }
                }
            }
            i = i + 1;
        }
        proof {
            assert(connected_peers@.take(n as int) =~= connected_peers@);
        }
        out
    }

    /// Takes in a block a peer sent: an oversize block is refused, a
    /// verified one joins the chain, and a fresh verified block is
    /// handed on to the other peers unless the node is catching up.
    pub fn received_block(
        &mut self,
        remote_address: PeerAddress,
        block: &Vec<u8>,
        connected_peers: Option<&Vec<PeerInfo>>,
        verdict: &BlockVerdict,
        syncing: bool,
    ) -> (r: Result<Vec<Message>, NetworkError>)
        requires
            old(self).wf(),
            verdict matches BlockVerdict::Valid(h) ==> h.wf(),
        ensures
            final(self).wf(),
            final(self).memory_pool == old(self).memory_pool,
            final(self).max_block_size == old(self).max_block_size,
            final(self).is_miner == old(self).is_miner,
            r is Err <==> block@.len() > old(self).max_block_size,
            r is Err ==> r->Err_0 == NetworkError::BlockTooLarge && final(self).chain == old(
                self,
            ).chain,
            r is Ok ==> match *verdict {
                BlockVerdict::Valid(h) => insert_block_rel(
                    old(self).chain,
                    final(self).chain,
                    h@,
                    block@,
                ),
                BlockVerdict::Invalid => final(self).chain == old(self).chain,
            },
            r is Ok ==> ({
                let fresh = (verdict matches BlockVerdict::Valid(h) && !old(
                    self,
                ).chain.spec_contains_hash(h@));
                if fresh && !syncing && connected_peers is Some {
                    is_block_broadcast(
                        r->Ok_0@,
                        targets_of(connected_peers->0@, remote_address),
                        block@,
                    )
                } else {
                    r->Ok_0@.len() == 0
                }
            }),
    {
        if block.len() > self.max_block_size {
            return Err(NetworkError::BlockTooLarge);
        }
        let fresh: bool = match verdict {
            BlockVerdict::Valid(h) => {
                let already = self.chain.block_hash_exists(h);
                let hash_bytes = copy_range(&h.0, 0, h.0.len());
                let block_bytes = copy_range(block, 0, block.len());
                proof {
                    assert(hash_bytes@ =~= h@);
                    assert(block_bytes@ =~= block@);
                }
                self.chain.insert_block(BlockHeaderHash(hash_bytes), block_bytes);
                !already
            },
            BlockVerdict::Invalid => false,
        };
        if fresh && !syncing {
            match connected_peers {
                Some(peers) => Ok(self.propagate_block(block, remote_address, peers)),
                None => Ok(Vec::new()),
            }
        } else {
            Ok(Vec::new())
        }
    }

    /// Answers a `GetBlocks` request: one `SyncBlock` per requested
    /// hash, or a storage error when any hash is unknown.
    pub fn received_get_blocks(
        &self,
        remote_address: PeerAddress,
        header_hashes: &Vec<BlockHeaderHash>,
    ) -> (r: Result<Vec<Message>, NetworkError>)
        requires
            self.wf(),
        ensures
            r is Ok <==> (forall|i: int|
                0 <= i < header_hashes@.len() ==> self.chain.spec_contains_hash(
                    (#[trigger] header_hashes@[i])@,
                )),
            r is Err ==> r->Err_0 == NetworkError::StorageBlockMissing,
            r is Ok ==> ({
                let msgs = r->Ok_0@;
                &&& msgs.len() == header_hashes@.len()
                &&& forall|i: int|
                    #![trigger msgs[i]]
                    0 <= i < msgs.len() ==> (msgs[i].payload matches Payload::SyncBlock(b)
                        && msgs[i].direction == Direction::Outbound(remote_address) && b@
                        == self.chain.spec_blocks()[self.chain.spec_height_of(
                        header_hashes@[i]@,
                    )].bytes@)
            }),
    {
        let n = header_hashes.len();
        let mut out: Vec<Message> = Vec::new();
        let mut i: usize = 0;
        while i < n
            invariant
                self.wf(),
                n == header_hashes@.len(),
                0 <= i <= n,
                out@.len() == i,
                forall|j: int|
                    0 <= j < i ==> self.chain.spec_contains_hash(
                        (#[trigger] header_hashes@[j])@,
                    ),
                forall|j: int|
                    #![trigger out@[j]]
                    0 <= j < i ==> (out@[j].payload matches Payload::SyncBlock(b) && out@[
                    j].direction == Direction::Outbound(remote_address) && b@
                        == self.chain.spec_blocks()[self.chain.spec_height_of(
                        header_hashes@[j]@,
                    )].bytes@),
            decreases n - i,
        {
            match self.chain.get_block(&header_hashes[i]) {
                Some(bytes) => {
                    out.push(
                        Message::new(
                            Direction::Outbound(remote_address),
                            Payload::SyncBlock(bytes),
                        ),
                    );
                },
                None => {
                    return Err(NetworkError::StorageBlockMissing);
                },
            }
            i = i + 1;
        }
        Ok(out)
    }

    /// Answers a `GetSync` request: the `Sync` message carrying the
    /// hashes right above the first shared locator hash, capped at
    /// `MAX_BLOCK_SYNC_COUNT`.
    pub fn received_get_sync(&self, remote_address: PeerAddress, locator: &Vec<BlockHeaderHash>)
        -> (m: Message)
        requires
            self.wf(),
        ensures
            m.direction == Direction::Outbound(remote_address),
            m.payload matches Payload::Sync(hs) && sync_response_ok(
                self.chain,
                self.chain.spec_height_of(
                    spec_latest_shared(self.chain, hashes_view(locator@)),
                ),
                hs@,
            ),
    {
        let hashes = self.chain.sync_response_hashes(locator);
        Message::new(Direction::Outbound(remote_address), Payload::Sync(hashes))
    }
}

/// The hashes of the sequence, in order, that the chain does not hold.
pub open spec fn missing_of(chain: ChainState, hv: Seq<Seq<u8>>) -> Seq<Seq<u8>>
    decreases hv.len(),
{
    if hv.len() == 0 {
        Seq::empty()
    } else {
        missing_of(chain, hv.drop_last()) + (if !chain.spec_contains_hash(hv.last()) {
            seq![hv.last()]
        } else {
            Seq::empty()
        })
    }
}

/// Whether the messages ask `remote` for exactly the hashes in `hv`,
/// chunked in order into groups of at most `MAX_BLOCK_SYNC_COUNT`.
pub open spec fn is_chunked_get_blocks(
    msgs: Seq<Message>,
    remote: PeerAddress,
    hv: Seq<Seq<u8>>,
) -> bool {
    let step = MAX_BLOCK_SYNC_COUNT as int;
    &&& msgs.len() == (hv.len() + step - 1) / step
    &&& forall|k: int|
        #![trigger msgs[k]]
        0 <= k < msgs.len() ==> (msgs[k].payload matches Payload::GetBlocks(c) && msgs[
        k].direction == Direction::Outbound(remote) && hashes_view(c@) == hv.subrange(
            step * k,
            if step * (k + 1) <= hv.len() {
                step * (k + 1)
            } else {
                hv.len() as int
            },
        ))
}

impl Consensus {
    /// The requested hashes this chain does not hold yet, in order.
    pub fn missing_block_hashes(&self, hashes: &Vec<BlockHeaderHash>) -> (r: Vec<BlockHeaderHash>)
        requires
            self.wf(),
            forall|i: int| 0 <= i < hashes@.len() ==> (#[trigger] hashes@[i]).wf(),
        ensures
            hashes_view(r@) == missing_of(self.chain, hashes_view(hashes@)),
            forall|i: int| 0 <= i < r@.len() ==> (#[trigger] r@[i]).wf(),
    {
        let ghost hv = hashes_view(hashes@);
        let n = hashes.len();
        let mut out: Vec<BlockHeaderHash> = Vec::new();
        proof {
            assert(hv.take(0) =~= Seq::<Seq<u8>>::empty());
            assert(hashes_view(out@) =~= Seq::<Seq<u8>>::empty());
        }
        let mut i: usize = 0;
        while i < n
            invariant
                self.wf(),
                n == hashes@.len(),
                hv == hashes_view(hashes@),
                forall|j: int| 0 <= j < hashes@.len() ==> (#[trigger] hashes@[j]).wf(),
                0 <= i <= n,
                hashes_view(out@) == missing_of(self.chain, hv.take(i as int)),
                forall|j: int| 0 <= j < out@.len() ==> (#[trigger] out@[j]).wf(),
            decreases n - i,
        {
            let ghost prefix2 = hv.take(i + 1);
            proof {
                assert(prefix2.drop_last() =~= hv.take(i as int));
                assert(prefix2.last() == hv[i as int]);
                assert(hv[i as int] == hashes@[i as int]@);
            }
            if !self.chain.block_hash_exists(&hashes[i]) {
                let b = &hashes[i].0;
                let h = BlockHeaderHash(copy_range(b, 0, b.len()));
                let ghost old_out = out@;
                out.push(h);
                proof {
                    assert(h@ =~= hashes@[i as int]@);
                    assert(hashes_view(out@) =~= hashes_view(old_out).push(h@));
                    assert(hashes_view(old_out).push(h@) =~= missing_of(
                        self.chain,
                        hv.take(i as int),
                    ) + seq![hv[i as int]]);
                }
            } else {
                proof {
                    assert(hashes_view(out@) =~= missing_of(self.chain, hv.take(i as int))
                        + Seq::<Seq<u8>>::empty());
                }
            }
            i = i + 1;
        }
        proof {
            assert(hv.take(n as int) =~= hv);
        }
        out
    }

    /// Handles a peer's `Sync` answer: requests the blocks this chain
    /// is missing, in `GetBlocks` chunks of at most
    /// `MAX_BLOCK_SYNC_COUNT` hashes each.
    pub fn received_sync(
        &self,
        remote_address: PeerAddress,
        block_hashes: &Vec<BlockHeaderHash>,
    ) -> (r: Vec<Message>)
        requires
            self.wf(),
            forall|i: int| 0 <= i < block_hashes@.len() ==> (#[trigger] block_hashes@[i]).wf(),
        ensures
            is_chunked_get_blocks(
                r@,
                remote_address,
                missing_of(self.chain, hashes_view(block_hashes@)),
            ),
    {
        let missing = self.missing_block_hashes(block_hashes);
        let ghost hv = hashes_view(missing@);
        let n = missing.len();
        let step = MAX_BLOCK_SYNC_COUNT as usize;
        let mut out: Vec<Message> = Vec::new();
        let mut start: usize = 0;
        let mut k: usize = 0;
        while start < n
            invariant
                n == missing@.len(),
                hv == hashes_view(missing@),
                forall|i: int| 0 <= i < missing@.len() ==> (#[trigger] missing@[i]).wf(),
                step == MAX_BLOCK_SYNC_COUNT as int,
                start as int == (if step * k <= n {
                    (step * k) as int
                } else {
                    n as int
                }),
                out@.len() == k,
                k >= 1 ==> step * (k - 1) < n,
                forall|j: int|
                    #![trigger out@[j]]
                    0 <= j < k ==> (out@[j].payload matches Payload::GetBlocks(c) && out@[
                    j].direction == Direction::Outbound(remote_address) && hashes_view(c@)
                        == hv.subrange(
                        step * j,
                        if step * (j + 1) <= n {
                            step * (j + 1)
                        } else {
                            n as int
                        },
                    )),
            decreases n - start,
        {
            proof {
                assert(start == step * k);
            }
            let end = if n - start > step {
                start + step
            } else {
                n
            };
            let mut chunk: Vec<BlockHeaderHash> = Vec::new();
            let mut i: usize = start;
            proof {
                assert(hashes_view(chunk@) =~= hv.subrange(start as int, start as int));
            }
            while i < end
                invariant
                    n == missing@.len(),
                    hv == hashes_view(missing@),
                    forall|i2: int| 0 <= i2 < missing@.len() ==> (#[trigger] missing@[i2]).wf(),
                    start <= i <= end <= n,
                    hashes_view(chunk@) == hv.subrange(start as int, i as int),
                decreases end - i,
            {
                let b = &missing[i].0;
                let h = BlockHeaderHash(copy_range(b, 0, b.len()));
                let ghost old_chunk = chunk@;
                chunk.push(h);
                proof {
                    assert(h@ =~= missing@[i as int]@);
                    assert(hashes_view(chunk@) =~= hashes_view(old_chunk).push(h@));
                    assert(hashes_view(old_chunk).push(h@) =~= hv.subrange(
                        start as int,
                        i + 1,
                    ));
                }
                i = i + 1;
            }
            let ghost old_out = out@;
            out.push(
                Message::new(Direction::Outbound(remote_address), Payload::GetBlocks(chunk)),
            );
            proof {
                assert forall|j: int| #![trigger out@[j]] 0 <= j < out@.len() implies (out@[
                j].payload matches Payload::GetBlocks(c) && out@[j].direction
                    == Direction::Outbound(remote_address) && hashes_view(c@) == hv.subrange(
                    step * j,
                    if step * (j + 1) <= n {
                        step * (j + 1)
                    } else {
                        n as int
                    },
                )) by {
                    if j < old_out.len() {
                        assert(out@[j] == old_out[j]);
                    } else {
                        assert(j == k);
                    }
                }
            }
            start = end;
            k = k + 1;
        }
        proof {
            if n == 0 {
                assert(k == 0);
            } else {
                assert(step * (k - 1) < n && n <= step * k);
            }
            assert(out@.len() == (hv.len() + step - 1) / (step as int));
        }
        out
    }
}

} // verus!
