//! The node: configuration, peer book, consensus, and the decisions
//! behind each inbound message and periodic tick.
//!
//! Each handler takes plain values — the decoded message, the
//! collaborator's verdicts, a nonce someone drew — and returns the
//! messages to send. Sockets, clocks for timeouts and randomness stay
//! outside the library.

use vstd::prelude::*;

use crate::consensus::{
    is_chunked_get_blocks, missing_of, targets_of, BlockVerdict, Consensus,
};
use crate::errors::NetworkError;
use crate::mempool::{candidates_of, process_mempool};
use crate::message::{
    bytes_view, hashes_view, BlockHeaderHash, Direction, Message, Payload, PeerAddress, Verack,
    Version,
};
use crate::peer_book::{
    book_unchanged, got_sync_block_rel, set_connected_rel, set_connecting_rel,
    set_disconnected_rel, PeerBook,
};
use crate::peer_info::{PeerInfo, PeerQuality};

verus! {

/// The protocol version this node speaks.
pub const PROTOCOL_VERSION: u64 = 1;

/// The node's configuration, with the documented defaults.
#[derive(Clone, Debug)]
pub struct Config {
    /// The TCP port the node listens on.
    pub listen_port: u16,
    /// Seed listener addresses for a cold start.
    pub bootnodes: Vec<PeerAddress>,
    /// Below this many connected peers the node dials hard.
    pub minimum_number_of_connected_peers: usize,
    /// The connected-peer population the node aims at.
    pub desired_number_of_connected_peers: usize,
    /// The hard cap on connected peers.
    pub maximum_number_of_connected_peers: usize,
    /// Seconds between peer-maintenance ticks.
    pub peer_sync_interval: u64,
    /// Seconds between block-sync ticks.
    pub block_sync_interval: u64,
    /// Seconds between memory-pool gossip ticks.
    pub tx_sync_interval: u64,
    /// Seconds between pings.
    pub ping_interval: u64,
    /// Seconds a handshake may take before the peer is dropped.
    pub handshake_timeout: u64,
}

impl Config {
    /// The documented default configuration.
    pub fn new() -> (r: Config)
        ensures
            r.listen_port == 4131,
            r.bootnodes@.len() == 0,
            r.minimum_number_of_connected_peers == 5,
            r.desired_number_of_connected_peers == 25,
            r.maximum_number_of_connected_peers == 50,
            r.peer_sync_interval == 5,
            r.block_sync_interval == 10,
            r.tx_sync_interval == 5,
            r.ping_interval == 30,
            r.handshake_timeout == 10,
    {
        Config {
            listen_port: 4131,
            bootnodes: Vec::new(),
            minimum_number_of_connected_peers: 5,
            desired_number_of_connected_peers: 25,
            maximum_number_of_connected_peers: 50,
            peer_sync_interval: 5,
            block_sync_interval: 10,
            tx_sync_interval: 5,
            ping_interval: 30,
            handshake_timeout: 10,
        }
    }
}

/// How a quality block reads after a ping went out: the peer awaits a
/// pong against a recorded ping time, and nothing else moved.
pub open spec fn pinged_quality(oldq: PeerQuality, newq: PeerQuality) -> bool {
    &&& newq.expecting_pong
    &&& newq.last_ping_sent is Some
    &&& newq.rtt_ms == oldq.rtt_ms
    &&& newq.failures == oldq.failures
    &&& newq.remaining_sync_blocks == oldq.remaining_sync_blocks
    &&& newq.last_seen == oldq.last_seen
}

/// Whether the messages carry the given transaction to exactly the
/// given targets, in order.
pub open spec fn is_tx_broadcast(
    msgs: Seq<Message>,
    targets: Seq<PeerAddress>,
    bytes: Seq<u8>,
) -> bool {
    &&& msgs.len() == targets.len()
    &&& forall|i: int|
        #![trigger msgs[i]]
        0 <= i < msgs.len() ==> (msgs[i].payload matches Payload::Transaction(b) && msgs[
        i].direction == Direction::Outbound(targets[i]) && b@ == bytes)
}

/// A full node: its configuration, peer book, consensus component and
/// the handshake nonces it has outstanding.
#[derive(Clone, Debug)]
pub struct Node {
    /// The node's configuration.
    pub config: Config,
    /// The registry of peer states.
    pub peer_book: PeerBook,
    /// The chain and memory pool, absent on a peering-only node.
    pub consensus: Option<Consensus>,
    /// The nonces of this node's own connection attempts still in
    /// flight; how a self-connect is recognized.
    pub outstanding_nonces: Vec<u64>,
}

impl Node {
    /// The node's invariant: the book and the consensus component are
    /// well formed.
    pub open spec fn wf(self) -> bool {
        &&& self.peer_book.wf()
        &&& self.consensus matches Option::Some(c) ==> c.wf()
    }

    /// Builds a node.
    pub fn new(config: Config, consensus: Option<Consensus>) -> (r: Node)
        requires
            consensus matches Option::Some(c) ==> c.wf(),
        ensures
            r.wf(),
            r.config == config,
            r.consensus == consensus,
            r.peer_book.spec_connected_seq().len() == 0,
            r.outstanding_nonces@.len() == 0,
    {
        Node {
            config,
            peer_book: PeerBook::new(),
            consensus,
            outstanding_nonces: Vec::new(),
        }
    }

    /// Whether this node is in a block-sync round: some peer still owes
    /// sync blocks.
    pub fn is_syncing_blocks(&self) -> (r: bool)
        requires
            self.wf(),
        ensures
            r == exists|i: int|
                0 <= i < self.peer_book.spec_connected_seq().len() && (
                #[trigger] self.peer_book.spec_connected_seq()[i]).quality.remaining_sync_blocks
                    != 0,
    {
        let infos = self.peer_book.connected_peers();
        let n = infos.len();
        let mut i: usize = 0;
        while i < n
            invariant
                n == infos@.len(),
                infos@ == self.peer_book.spec_connected_seq(),
                0 <= i <= n,
                forall|j: int|
                    0 <= j < i ==> (
                    #[trigger] self.peer_book.spec_connected_seq()[j]).quality.remaining_sync_blocks
                        == 0,
            decreases n - i,
        {
            if infos[i].quality.remaining_sync_blocks != 0 {
                proof {
                    assert(self.peer_book.spec_connected_seq()[i as int]
                        == infos@[i as int]);
                }
                return true;
            }
            i = i + 1;
        }
        false
    }

    /// Whether an inbound connection may still be admitted under the
    /// connected-peer cap.
    pub fn can_connect(&self) -> (r: bool)
        ensures
            r == (self.peer_book.spec_num_connected()
                < self.config.maximum_number_of_connected_peers),
    {
        self.peer_book.number_of_connected_peers() < self.config.maximum_number_of_connected_peers
    }

    /// Finishes a handshake under admission control: a peer over the
    /// connected cap is recorded disconnected instead of connected, so
    /// the cap is never exceeded.
    pub fn accept_connection(&mut self, address: PeerAddress, listener: Option<PeerAddress>) -> (r:
        Result<(), NetworkError>)
        requires
            old(self).wf(),
        ensures
            final(self).wf(),
            final(self).config == old(self).config,
            final(self).consensus == old(self).consensus,
            final(self).outstanding_nonces == old(self).outstanding_nonces,
            r is Ok <==> old(self).peer_book.spec_num_connected() < old(
                self,
            ).config.maximum_number_of_connected_peers,
            r is Err ==> r->Err_0 == NetworkError::PeerAlreadyConnected,
            r is Ok ==> exists|t: i64|
                set_connected_rel(
                    old(self).peer_book,
                    final(self).peer_book,
                    address,
                    listener,
                    t,
                ),
            r is Err ==> exists|t: i64|
                set_disconnected_rel(old(self).peer_book, final(self).peer_book, address, t),
            // The cap holds after the action whenever it held before.
            old(self).peer_book.spec_num_connected() <= old(
                self,
            ).config.maximum_number_of_connected_peers ==> final(self).peer_book.spec_num_connected()
                <= final(self).config.maximum_number_of_connected_peers,
    {
        if self.peer_book.number_of_connected_peers()
            < self.config.maximum_number_of_connected_peers {
            let r = self.peer_book.set_connected(address, listener);
            proof {
                let t = choose|t: i64|
                    set_connected_rel(old(self).peer_book, self.peer_book, address, listener, t);
                assert(set_connected_rel(
                    old(self).peer_book,
                    self.peer_book,
                    address,
                    listener,
                    t,
                ));
            }
            Ok(())
        } else {
            let _ = self.peer_book.set_disconnected(address);
            proof {
                let t = choose|t: i64|
                    set_disconnected_rel(old(self).peer_book, self.peer_book, address, t);
                assert(set_disconnected_rel(old(self).peer_book, self.peer_book, address, t));
                if old(self).peer_book.spec_connecting(address) {
                } else if old(self).peer_book.spec_connected(address) {
                } else if old(self).peer_book.spec_disconnected(address) {
                }
            }
            Err(NetworkError::PeerAlreadyConnected)
        }
    }

    /// Opens this node's own connection attempt: the nonce joins the
    /// outstanding set, the target is marked connecting, and the
    /// `Version` greeting to send is returned.
    pub fn start_handshake(&mut self, target: PeerAddress, nonce: u64, height: u32) -> (r: Result<
        Message,
        NetworkError,
    >)
        requires
            old(self).wf(),
        ensures
            final(self).wf(),
            final(self).config == old(self).config,
            final(self).consensus == old(self).consensus,
            r is Err <==> old(self).peer_book.spec_connected(target),
            r is Err ==> r->Err_0 == NetworkError::PeerAlreadyConnected && *final(self) == *old(
                self,
            ),
            r is Ok ==> ({
                &&& final(self).outstanding_nonces@ == old(self).outstanding_nonces@.push(nonce)
                &&& set_connecting_rel(old(self).peer_book, final(self).peer_book, target)
                &&& r->Ok_0.direction == Direction::Outbound(target)
                &&& (r->Ok_0.payload matches Payload::Version(v) && v == (Version {
                    version: PROTOCOL_VERSION,
                    listener_port: old(self).config.listen_port,
                    height,
                    nonce,
                }))
            }),
    {
        match self.peer_book.set_connecting(target) {
            Ok(()) => {
                self.outstanding_nonces.push(nonce);
                let v = Version::new(PROTOCOL_VERSION, self.config.listen_port, height, nonce);
                Ok(Message::new(Direction::Outbound(target), Payload::Version(v)))
            },
            Err(e) => Err(e),
        }
    }

    /// Whether one of this node's own connection attempts uses the
    /// nonce.
    pub fn has_outstanding_nonce(&self, nonce: u64) -> (r: bool)
        ensures
            r == self.outstanding_nonces@.contains(nonce),
    {
        let n = self.outstanding_nonces.len();
        let mut i: usize = 0;
        while i < n
            invariant
                n == self.outstanding_nonces@.len(),
                0 <= i <= n,
                forall|j: int| 0 <= j < i ==> #[trigger] self.outstanding_nonces@[j] != nonce,
            decreases n - i,
        {
            if self.outstanding_nonces[i] == nonce {
                proof {
                    assert(self.outstanding_nonces@.contains(nonce));
                }
                return true;
            }
            i = i + 1;
        }
        proof {
            if self.outstanding_nonces@.contains(nonce) {
                let j = choose|j: int|
                    0 <= j < self.outstanding_nonces@.len() && self.outstanding_nonces@[j]
                        == nonce;
                assert(self.outstanding_nonces@[j] != nonce);
            }
        }
        false
    }

    /// Handles a received `Version` greeting.
    ///
    /// A greeting carrying one of this node's own outstanding nonces is
    /// the node talking to itself: the connection is refused and no
    /// `Verack` is issued. Otherwise the peer's effective listener
    /// address is marked connecting and the node answers with its own
    /// `Version` and the `Verack` for the peer's nonce.
    pub fn received_version(&mut self, remote: PeerAddress, version: &Version, height: u32) -> (r:
        Option<(Message, Message)>)
        requires
            old(self).wf(),
        ensures
            final(self).wf(),
            final(self).config == old(self).config,
            final(self).consensus == old(self).consensus,
            final(self).outstanding_nonces == old(self).outstanding_nonces,
            // A self-connect is recognized exactly by its nonce.
            r is None <==> old(self).outstanding_nonces@.contains(version.nonce),
            r is None ==> book_unchanged(old(self).peer_book, final(self).peer_book),
            r is Some ==> ({
                let listener = PeerAddress { ip: remote.ip, port: version.listener_port };
                let (vm, ack) = r->0;
                &&& vm.direction == Direction::Outbound(listener)
                &&& (vm.payload matches Payload::Version(v) && v == (Version {
                    version: PROTOCOL_VERSION,
                    listener_port: old(self).config.listen_port,
                    height,
                    nonce: version.nonce,
                }))
                &&& ack.direction == Direction::Outbound(listener)
                &&& (ack.payload matches Payload::Verack(k) && k.nonce == version.nonce)
                &&& if old(self).peer_book.spec_connected(listener) {
                    book_unchanged(old(self).peer_book, final(self).peer_book)
                } else {
                    set_connecting_rel(old(self).peer_book, final(self).peer_book, listener)
                }
            }),
    {
        if self.has_outstanding_nonce(version.nonce) {
            return None;
        }
        let listener = PeerAddress::new(remote.ip, version.listener_port);
        match self.peer_book.set_connecting(listener) {
            Ok(()) => {},
            Err(_) => {},
        }
        let v = Version::new(
            PROTOCOL_VERSION,
            self.config.listen_port,
            height,
            version.nonce,
        );
        let vm = Message::new(Direction::Outbound(listener), Payload::Version(v));
        let ack = Message::new(
            Direction::Outbound(listener),
            Payload::Verack(Verack::new(version.nonce)),
        );
        Some((vm, ack))
    }

    /// Handles a received `Verack`: an acknowledgement whose nonce
    /// matches an outstanding attempt completes that handshake and the
    /// peer becomes connected; any other is a protocol violation and
    /// changes nothing.
    pub fn received_verack(&mut self, remote: PeerAddress, verack: &Verack) -> (r: bool)
        requires
            old(self).wf(),
        ensures
            final(self).wf(),
            final(self).config == old(self).config,
            final(self).consensus == old(self).consensus,
            r == old(self).outstanding_nonces@.contains(verack.nonce),
            !r ==> final(self).peer_book == old(self).peer_book && final(self).outstanding_nonces
                == old(self).outstanding_nonces,
            r ==> !final(self).outstanding_nonces@.contains(verack.nonce),
            r ==> exists|t: i64|
                set_connected_rel(
                    old(self).peer_book,
                    final(self).peer_book,
                    remote,
                    Option::None::<PeerAddress>,
                    t,
                ),
    {
        if !self.has_outstanding_nonce(verack.nonce) {
            return false;
        }
        self.remove_nonce(verack.nonce);
        let ghost mid_book = self.peer_book;
        let _ = self.peer_book.set_connected(remote, None);
        proof {
            let t = choose|t: i64|
                set_connected_rel(
                    mid_book,
                    self.peer_book,
                    remote,
                    Option::None::<PeerAddress>,
                    t,
                );
            assert(set_connected_rel(
                old(self).peer_book,
                self.peer_book,
                remote,
                Option::None::<PeerAddress>,
                t,
            ));
        }
        true
    }

    /// Takes every occurrence of the nonce out of the outstanding set.
    fn remove_nonce(&mut self, nonce: u64)
        ensures
            !final(self).outstanding_nonces@.contains(nonce),
            final(self).config == old(self).config,
            final(self).consensus == old(self).consensus,
            final(self).peer_book == old(self).peer_book,
    {
        let n = self.outstanding_nonces.len();
        let mut kept: Vec<u64> = Vec::new();
        let mut i: usize = 0;
        while i < n
            invariant
                n == self.outstanding_nonces@.len(),
                0 <= i <= n,
                forall|j: int| 0 <= j < kept@.len() ==> #[trigger] kept@[j] != nonce,
            decreases n - i,
        {
            let x = self.outstanding_nonces[i];
            if x != nonce {
                kept.push(x);
            }
            i = i + 1;
        }
        self.outstanding_nonces = kept;
        proof {
            if self.outstanding_nonces@.contains(nonce) {
                let j = choose|j: int|
                    0 <= j < self.outstanding_nonces@.len() && self.outstanding_nonces@[j]
                        == nonce;
                assert(self.outstanding_nonces@[j] != nonce);
            }
        }
    }

    /// Handles a `Ping`: always answers `Pong`, and when the peer's
    /// chain is ahead and this node is not already catching up, also
    /// opens a sync round against that peer.
    pub fn received_ping(&self, source: PeerAddress, height: u32) -> (r: Vec<Message>)
        requires
            self.wf(),
            self.consensus is Some,
        ensures
            1 <= r@.len() <= 2,
            r@[0].direction == Direction::Outbound(source),
            r@[0].payload == Payload::Pong,
            ({
                let ahead = height > self.consensus->0.chain.spec_height();
                let syncing = exists|i: int|
                    0 <= i < self.peer_book.spec_connected_seq().len() && (
                    #[trigger] self.peer_book.spec_connected_seq()[
                    i]).quality.remaining_sync_blocks != 0;
                if ahead && !syncing {
                    r@.len() == 2 && r@[1].direction == Direction::Outbound(source) && (r@[
                    1].payload matches Payload::GetSync(hs) && crate::chain::is_locator_of(
                        self.consensus->0.chain,
                        hs@,
                    ))
                } else {
                    r@.len() == 1
                }
            }),
    {
        let mut out: Vec<Message> = Vec::new();
        out.push(Message::new(Direction::Outbound(source), Payload::Pong));
        let local_height = match &self.consensus {
            Some(c) => c.chain.get_current_block_height(),
            None => 0,
        };
        if height > local_height && !self.is_syncing_blocks() {
            match &self.consensus {
                Some(c) => {
                    out.push(c.update_blocks(source));
                },
                None => {},
            }
        }
        out
    }

    /// Handles a `GetPeers` request: the listener addresses of the
    /// connected peers, without the asker itself.
    pub fn received_get_peers(&self, source: PeerAddress) -> (m: Message)
        requires
            self.wf(),
        ensures
            m.direction == Direction::Outbound(source),
            m.payload matches Payload::Peers(ps) && ps@ == targets_of(
                self.peer_book.spec_connected_seq(),
                source,
            ),
    {
        let infos = self.peer_book.connected_peers();
        let n = infos.len();
        let mut out: Vec<PeerAddress> = Vec::new();
        proof {
            assert(infos@.take(0) =~= Seq::<PeerInfo>::empty());
        }
        let mut i: usize = 0;
        while i < n
            invariant
                n == infos@.len(),
                0 <= i <= n,
                out@ == targets_of(infos@.take(i as int), source),
            decreases n - i,
        {
            let ghost prefix = infos@.take(i as int);
            let addr = infos[i].address;
            proof {
                let prefix2 = infos@.take(i + 1);
                assert(prefix2.drop_last() =~= prefix);
                assert(prefix2.last() == infos@[i as int]);
                if addr == source {
                    assert(targets_of(prefix2, source) =~= targets_of(prefix, source));
                } else {
                    assert(targets_of(prefix2, source) =~= targets_of(prefix, source).push(
                        addr,
                    ));
                }
            }
            if !(addr == source) {
                out.push(addr);
            }
            i = i + 1;
        }
        proof {
            assert(infos@.take(n as int) =~= infos@);
        }
        Message::new(Direction::Outbound(source), Payload::Peers(out))
    }

    /// Handles a `Peers` answer: every listed address the book does not
    /// know yet is added as a disconnected peer; the node's own
    /// listener address is skipped.
    pub fn received_peers(&mut self, own_address: PeerAddress, peers: &Vec<PeerAddress>)
        requires
            old(self).wf(),
        ensures
            final(self).wf(),
            final(self).config == old(self).config,
            final(self).consensus == old(self).consensus,
            final(self).outstanding_nonces == old(self).outstanding_nonces,
            final(self).peer_book.spec_connecting_seq() == old(
                self,
            ).peer_book.spec_connecting_seq(),
            final(self).peer_book.spec_connected_seq() == old(self).peer_book.spec_connected_seq(),
            forall|i: int|
                0 <= i < peers@.len() && #[trigger] peers@[i] != own_address ==> final(self).peer_book.spec_disconnected(peers@[i]) || final(self).peer_book.spec_connecting(
                    peers@[i],
                ) || final(self).peer_book.spec_connected(peers@[i]),
            forall|a2: PeerAddress|
                !peers@.contains(a2) ==> (final(self).peer_book.spec_disconnected(a2) == old(
                    self,
                ).peer_book.spec_disconnected(a2) && (old(self).peer_book.spec_disconnected(
                    a2,
                ) ==> final(self).peer_book.spec_disconnected_info(a2) == old(
                    self,
                ).peer_book.spec_disconnected_info(a2))),
    {
        let n = peers.len();
        let mut i: usize = 0;
        while i < n
            invariant
                self.wf(),
                n == peers@.len(),
                0 <= i <= n,
                self.config == old(self).config,
                self.consensus == old(self).consensus,
                self.outstanding_nonces == old(self).outstanding_nonces,
                self.peer_book.spec_connecting_seq() == old(self).peer_book.spec_connecting_seq(),
                self.peer_book.spec_connected_seq() == old(self).peer_book.spec_connected_seq(),
                forall|j: int|
                    0 <= j < i && #[trigger] peers@[j] != own_address ==> self
                        .peer_book.spec_disconnected(peers@[j]) || self.peer_book.spec_connecting(
                        peers@[j],
                    ) || self.peer_book.spec_connected(peers@[j]),
                forall|a2: PeerAddress|
                    !peers@.contains(a2) ==> (self.peer_book.spec_disconnected(a2) == old(
                        self,
                    ).peer_book.spec_disconnected(a2) && (old(self).peer_book.spec_disconnected(
                        a2,
                    ) ==> self.peer_book.spec_disconnected_info(a2) == old(
                        self,
                    ).peer_book.spec_disconnected_info(a2))),
            decreases n - i,
        {
            let addr = peers[i];
            let ghost mid = self.peer_book;
            if !(addr == own_address) {
                self.peer_book.add_peer(addr);
            }
            proof {
                if addr != own_address {
                    let t = choose|t: i64|
                        crate::peer_book::add_peer_rel(mid, self.peer_book, addr, t);
                    assert(crate::peer_book::add_peer_rel(mid, self.peer_book, addr, t));
                    assert(peers@.contains(peers@[i as int]));
                }
                assert forall|j: int|
                    0 <= j < i + 1 && #[trigger] peers@[j] != own_address implies self
                    .peer_book.spec_disconnected(peers@[j]) || self.peer_book.spec_connecting(
                    peers@[j],
                ) || self.peer_book.spec_connected(peers@[j]) by {
                    let a = peers@[j];
                    if j < i {
                        if addr == own_address {
                        } else if a == addr {
                        } else {
                            assert(mid.spec_disconnected(a) || mid.spec_connecting(a)
                                || mid.spec_connected(a));
                        }
                    } else {
                        assert(a == addr);
                    }
                }
                assert forall|a2: PeerAddress| !peers@.contains(a2) implies (self
                    .peer_book.spec_disconnected(a2) == old(self).peer_book.spec_disconnected(a2)
                    && (old(self).peer_book.spec_disconnected(a2)
                    ==> self.peer_book.spec_disconnected_info(a2) == old(
                    self,
                ).peer_book.spec_disconnected_info(a2))) by {
                    if addr != own_address {
                        assert(a2 != addr);
                    }
                }
            }
            i = i + 1;
        }
    }

    /// Handles a `GetMemoryPool` request: the pool's candidate
    /// transactions under the block-size budget.
    pub fn received_get_memory_pool(&self, source: PeerAddress) -> (m: Message)
        requires
            self.wf(),
            self.consensus is Some,
        ensures
            m.direction == Direction::Outbound(source),
            m.payload matches Payload::MemoryPool(txs) && bytes_view(txs@) == candidates_of(
                self.consensus->0.memory_pool.spec_txs(),
                self.consensus->0.max_block_size as int,
            ),
    {
        let (candidates, budget) = match &self.consensus {
            Some(c) => (c.memory_pool.get_candidates(c.max_block_size), c.max_block_size),
            None => (Vec::new(), 0),
        };
        Message::new(Direction::Outbound(source), Payload::MemoryPool(candidates))
    }

    /// Handles a `MemoryPool` batch with the collaborator's verdicts:
    /// accepted new transactions join the pool, everything else is
    /// dropped silently. Feeding the same batch twice changes nothing
    /// the second time.
    pub fn received_memory_pool(&mut self, txs: &Vec<Vec<u8>>, accepted: &Vec<bool>)
        requires
            old(self).wf(),
            old(self).consensus is Some,
            txs@.len() == accepted@.len(),
        ensures
            final(self).wf(),
            final(self).config == old(self).config,
            final(self).peer_book == old(self).peer_book,
            final(self).consensus is Some,
            final(self).consensus->0.chain == old(self).consensus->0.chain,
            final(self).consensus->0.max_block_size == old(self).consensus->0.max_block_size,
            final(self).consensus->0.memory_pool.spec_txs() == process_mempool(
                old(self).consensus->0.memory_pool.spec_txs(),
                bytes_view(txs@),
                accepted@,
            ),
            // Every entry of the pool records the transport byte length
            // of its own transaction as its size.
            final(self).consensus->0.memory_pool.spec_entry_sizes_ok(),
    {
        match &mut self.consensus {
            Some(c) => {
                c.memory_pool.process_received(txs, accepted);
                proof {
                    c.memory_pool.lemma_entry_sizes();
                }
            },
            None => {},
        }
    }

    /// Handles a gossiped `Transaction` under the collaborator's
    /// verdict. A transaction that verifies and is new joins the pool
    /// and goes out to every connected peer but its sender.
    pub fn received_transaction(&mut self, source: PeerAddress, tx: &Vec<u8>, accepted: bool)
        -> (r: Vec<Message>)
        requires
            old(self).wf(),
            old(self).consensus is Some,
        ensures
            final(self).wf(),
            final(self).config == old(self).config,
            final(self).peer_book == old(self).peer_book,
            final(self).consensus is Some,
            final(self).consensus->0.chain == old(self).consensus->0.chain,
            final(self).consensus->0.memory_pool.spec_entry_sizes_ok(),
            ({
                let fresh = accepted && !old(self).consensus->0.memory_pool.spec_contains_tx(tx@);
                &&& final(self).consensus->0.memory_pool.spec_txs() == (if fresh {
                    old(self).consensus->0.memory_pool.spec_txs().push(tx@)
                } else {
                    old(self).consensus->0.memory_pool.spec_txs()
                })
                &&& if fresh {
                    is_tx_broadcast(
                        r@,
                        targets_of(old(self).peer_book.spec_connected_seq(), source),
                        tx@,
                    )
                } else {
                    r@.len() == 0
                }
            }),
    {
        if !accepted {
            proof {
                self.consensus->0.memory_pool.lemma_entry_sizes();
            }
            return Vec::new();
        }
        let infos = self.peer_book.connected_peers();
        match &mut self.consensus {
            Some(c) => {
                let bytes = crate::codec::copy_range(tx, 0, tx.len());
                proof {
                    assert(bytes@ =~= tx@);
                }
                let entry = crate::mempool::Entry {
                    size_in_bytes: bytes.len(),
                    transaction: bytes,
                };
                let inserted = c.memory_pool.insert(entry);
                proof {
                    c.memory_pool.lemma_entry_sizes();
                }
                match inserted {
                    Some(_) => {},
                    None => {
                        return Vec::new();
                    },
                }
            },
            None => {
                return Vec::new();
            },
        }
        let n = infos.len();
        let mut out: Vec<Message> = Vec::new();
        proof {
            assert(infos@.take(0) =~= Seq::<PeerInfo>::empty());
        }
        let mut i: usize = 0;
        while i < n
            invariant
                n == infos@.len(),
                0 <= i <= n,
                is_tx_broadcast(out@, targets_of(infos@.take(i as int), source), tx@),
            decreases n - i,
        {
            let ghost old_out = out@;
            let ghost prefix = infos@.take(i as int);
            let addr = infos[i].address;
            if !(addr == source) {
                let bytes = crate::codec::copy_range(tx, 0, tx.len());
                out.push(Message::new(Direction::Outbound(addr), Payload::Transaction(bytes)));
            }
            proof {
                let prefix2 = infos@.take(i + 1);
                assert(prefix2.drop_last() =~= prefix);
                assert(prefix2.last() == infos@[i as int]);
                let t2 = targets_of(prefix2, source);
                let t1 = targets_of(prefix, source);
                if addr == source {
                    assert(t2 =~= t1);
                } else {
                    assert(t2 =~= t1.push(addr));
                }
                assert forall|j: int| #![trigger out@[j]] 0 <= j < out@.len() implies (out@[
                j].payload matches Payload::Transaction(b) && out@[j].direction
                    == Direction::Outbound(t2[j]) && b@ == tx@) by {
                    if j < old_out.len() {
                        assert(out@[j] == old_out[j]);
                        assert(t2[j] == t1[j]);
                    }
                }
            }
            i = i + 1;
        }
        proof {
            assert(infos@.take(n as int) =~= infos@);
        }
        out
    }

    /// Handles a `SyncBlock`: the block is taken in without ever being
    /// handed on — a sync block is never retransmitted — and the
    /// sender's owed-block counter goes down by one.
    pub fn received_sync_block(
        &mut self,
        remote: PeerAddress,
        block: &Vec<u8>,
        verdict: &BlockVerdict,
    ) -> (r: Result<Vec<Message>, NetworkError>)
        requires
            old(self).wf(),
            old(self).consensus is Some,
            verdict matches BlockVerdict::Valid(h) ==> h.wf(),
        ensures
            final(self).wf(),
            final(self).config == old(self).config,
            r is Err <==> block@.len() > old(self).consensus->0.max_block_size,
            r is Err ==> final(self).peer_book == old(self).peer_book && final(self).consensus
                == old(self).consensus,
            // Nothing is ever retransmitted out of a sync block.
            r is Ok ==> r->Ok_0@.len() == 0,
            r is Ok ==> match *verdict {
                BlockVerdict::Valid(h) => crate::chain::insert_block_rel(
                    old(self).consensus->0.chain,
                    final(self).consensus->0.chain,
                    h@,
                    block@,
                ),
                BlockVerdict::Invalid => final(self).consensus->0.chain == old(
                    self,
                ).consensus->0.chain,
            },
            r is Ok ==> (if old(self).peer_book.spec_connected(remote) {
                got_sync_block_rel(old(self).peer_book, final(self).peer_book, remote)
            } else {
                book_unchanged(old(self).peer_book, final(self).peer_book)
            }),
    {
        let msgs = match &mut self.consensus {
            Some(c) => {
                match c.received_block(remote, block, None, verdict, true) {
                    Ok(msgs) => msgs,
                    Err(e) => {
                        return Err(e);
                    },
                }
            },
            None => Vec::new(),
        };
        let _ = self.peer_book.got_sync_block(remote);
        Ok(msgs)
    }

    /// Handles a `Sync` answer: the missing blocks are requested in
    /// chunks and the sender is recorded as owing that many blocks.
    pub fn received_sync(&mut self, remote: PeerAddress, block_hashes: &Vec<BlockHeaderHash>)
        -> (r: Vec<Message>)
        requires
            old(self).wf(),
            old(self).consensus is Some,
            forall|i: int| 0 <= i < block_hashes@.len() ==> (#[trigger] block_hashes@[i]).wf(),
        ensures
            final(self).wf(),
            final(self).config == old(self).config,
            final(self).consensus == old(self).consensus,
            is_chunked_get_blocks(
                r@,
                remote,
                missing_of(old(self).consensus->0.chain, hashes_view(block_hashes@)),
            ),
            ({
                let owed = missing_of(
                    old(self).consensus->0.chain,
                    hashes_view(block_hashes@),
                ).len();
                let count: u16 = if owed <= u16::MAX {
                    owed as u16
                } else {
                    u16::MAX
                };
                if old(self).peer_book.spec_connected(remote) {
                    crate::peer_book::quality_update_rel(
                        old(self).peer_book,
                        final(self).peer_book,
                        remote,
                        (crate::peer_info::PeerQuality {
                            remaining_sync_blocks: count,
                            ..old(self).peer_book.spec_connected_info(remote).quality
                        }),
                    )
                } else {
                    book_unchanged(old(self).peer_book, final(self).peer_book)
                }
            }),
    {
        let (msgs, owed) = match &self.consensus {
            Some(c) => {
                let missing = c.missing_block_hashes(block_hashes);
                (c.received_sync(remote, block_hashes), missing.len())
            },
            None => (Vec::new(), 0),
        };
        let count: u16 = if owed <= u16::MAX as usize {
            owed as u16
        } else {
            u16::MAX
        };
        self.peer_book.expecting_sync_blocks(remote, count);
        msgs
    }
}

impl Node {
    /// The block-sync tick: when any peer is connected, the sync
    /// partner is the most recently seen one, and a `GetSync` with this
    /// chain's locator goes out to it.
    pub fn block_sync_tick(&self) -> (r: Option<Message>)
        requires
            self.wf(),
            self.consensus is Some,
        ensures
            r is Some <==> self.peer_book.spec_num_connected() > 0,
            r is Some ==> ({
                let m = r->0;
                &&& m.direction matches Direction::Outbound(a) && self.peer_book.spec_connected(a)
                    && (forall|a2: PeerAddress|
                    self.peer_book.spec_connected(a2) ==> crate::peer_info::ts_le(
                        self.peer_book.spec_connected_info(a2).quality.last_seen,
                        self.peer_book.spec_connected_info(a).quality.last_seen,
                    ))
                &&& m.payload matches Payload::GetSync(hs) && crate::chain::is_locator_of(
                    self.consensus->0.chain,
                    hs@,
                )
            }),
    {
        let sync_node = match self.peer_book.last_seen() {
            Some(a) => a,
            None => {
                return None;
            },
        };
        match &self.consensus {
            Some(c) => Some(c.update_blocks(sync_node)),
            None => None,
        }
    }

    /// The memory-pool gossip tick: a `GetMemoryPool` goes out to the
    /// most recently seen connected peer, when any is connected.
    pub fn tx_sync_tick(&self) -> (r: Option<Message>)
        requires
            self.wf(),
        ensures
            r is Some <==> self.peer_book.spec_num_connected() > 0,
            r is Some ==> ({
                let m = r->0;
                &&& m.direction matches Direction::Outbound(a) && self.peer_book.spec_connected(a)
                &&& m.payload == Payload::GetMemoryPool
            }),
    {
        match self.peer_book.last_seen() {
            Some(a) => Some(Message::new(Direction::Outbound(a), Payload::GetMemoryPool)),
            None => None,
        }
    }

    /// The ping tick: a `Ping` carrying this chain's height goes out to
    /// every connected peer, and each peer is recorded as owing a pong:
    /// its quality gets the ping time and the expecting-pong flag.
    pub fn ping_tick(&mut self, height: u32) -> (r: Vec<Message>)
        requires
            old(self).wf(),
        ensures
            final(self).wf(),
            final(self).config == old(self).config,
            final(self).consensus == old(self).consensus,
            final(self).peer_book.spec_connecting_seq() == old(
                self,
            ).peer_book.spec_connecting_seq(),
            final(self).peer_book.spec_disconnected_seq() == old(
                self,
            ).peer_book.spec_disconnected_seq(),
            final(self).peer_book.spec_num_connected() == old(self).peer_book.spec_num_connected(),
            forall|a: PeerAddress|
                final(self).peer_book.spec_connected(a) == old(self).peer_book.spec_connected(a),
            // The tick's bookkeeping: every connected peer now awaits a
            // pong against a recorded ping time; nothing else of its
            // record moves.
            forall|j: int|
                0 <= j < old(self).peer_book.spec_connected_seq().len() ==> ({
                    let a = (#[trigger] old(self).peer_book.spec_connected_seq()[j]).address;
                    let pre = old(self).peer_book.spec_connected_info(a);
                    let post = final(self).peer_book.spec_connected_info(a);
                    &&& post == (PeerInfo { quality: post.quality, ..pre })
                    &&& pinged_quality(pre.quality, post.quality)
                }),
            r@.len() == old(self).peer_book.spec_num_connected(),
            forall|i: int|
                #![trigger r@[i]]
                0 <= i < r@.len() ==> r@[i].direction == Direction::Outbound(
                    old(self).peer_book.spec_connected_seq()[i].address,
                ) && r@[i].payload == Payload::Ping(height),
    {
        let infos = self.peer_book.connected_peers();
        let n = infos.len();
        proof {
            crate::peer_book::lemma_wf_distinct(old(self).peer_book);
            assert forall|j: int|
                0 <= j < n implies #[trigger] self.peer_book.spec_connected_info(
                infos@[j].address,
            ) == infos@[j] && self.peer_book.spec_connected(infos@[j].address) by {
                crate::peer_book::lemma_addr_index(infos@, infos@[j].address, j);
            }
        }
        let mut out: Vec<Message> = Vec::new();
        let mut i: usize = 0;
        while i < n
            invariant
                self.wf(),
                n == infos@.len(),
                infos@ == old(self).peer_book.spec_connected_seq(),
                crate::peer_book::distinct_addrs(infos@),
                self.config == old(self).config,
                self.consensus == old(self).consensus,
                self.peer_book.spec_connecting_seq() == old(self).peer_book.spec_connecting_seq(),
                self.peer_book.spec_disconnected_seq() == old(
                    self,
                ).peer_book.spec_disconnected_seq(),
                self.peer_book.spec_num_connected() == old(self).peer_book.spec_num_connected(),
                forall|a: PeerAddress|
                    self.peer_book.spec_connected(a) == old(self).peer_book.spec_connected(a),
                0 <= i <= n,
                forall|j: int|
                    0 <= j < n ==> ({
                        let a = (#[trigger] infos@[j]).address;
                        let post = self.peer_book.spec_connected_info(a);
                        if j < i {
                            post == (PeerInfo { quality: post.quality, ..infos@[j] })
                                && pinged_quality(infos@[j].quality, post.quality)
                        } else {
                            post == infos@[j]
                        }
                    }),
                out@.len() == i,
                forall|j: int|
                    #![trigger out@[j]]
                    0 <= j < i ==> out@[j].direction == Direction::Outbound(infos@[j].address)
                        && out@[j].payload == Payload::Ping(height),
            decreases n - i,
        {
            let target = infos[i].address;
            let ghost mid = self.peer_book;
            self.peer_book.sending_ping(target);
            proof {
                let t = choose|t: i64|
                    crate::peer_book::sending_ping_rel(mid, self.peer_book, target, t);
                assert(crate::peer_book::sending_ping_rel(mid, self.peer_book, target, t));
                assert forall|j: int|
                    0 <= j < n implies ({
                    let a = (#[trigger] infos@[j]).address;
                    let post = self.peer_book.spec_connected_info(a);
                    if j < i + 1 {
                        post == (PeerInfo { quality: post.quality, ..infos@[j] })
                            && pinged_quality(infos@[j].quality, post.quality)
                    } else {
                        post == infos@[j]
                    }
                }) by {
                    let a = infos@[j].address;
                    if j != i {
                        assert(infos@[if j < i { j } else { j }] == infos@[j]);
                        if a == target {
                            if j < i as int {
                                assert(infos@[j].address != infos@[i as int].address);
                            } else {
                                assert(infos@[i as int].address != infos@[j].address);
                            }
                        }
                        assert(a != target);
                    }
                }
            }
            out.push(Message::new(Direction::Outbound(target), Payload::Ping(height)));
            i = i + 1;
        }
        out
    }
}

} // verus!