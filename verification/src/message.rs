//! The typed messages of the wire protocol, and the values they carry.

use vstd::prelude::*;

verus! {

/// A network endpoint: an IP address (IPv6, with IPv4 mapped into it) and a
/// TCP port. A peer's *listener* address is the stable address it accepts
/// inbound connections on, as opposed to the transient socket address of an
/// outgoing connection.
#[derive(Clone, Copy, Debug, PartialEq, Eq, Structural)]
pub struct PeerAddress {
    /// The 16 address bytes, packed into one integer.
    pub ip: u128,
    /// The TCP port.
    pub port: u16,
}

impl PeerAddress {
    /// Builds an address from its packed IP bytes and port.
    pub fn new(ip: u128, port: u16) -> (r: PeerAddress)
        ensures
            r.ip == ip,
            r.port == port,
    {
        PeerAddress { ip, port }
    }
}

/// The hash of a block header: exactly 32 bytes.
#[derive(Clone, Debug, PartialEq, Eq)]
pub struct BlockHeaderHash(pub Vec<u8>);

impl View for BlockHeaderHash {
    type V = Seq<u8>;

    open spec fn view(&self) -> Seq<u8> {
        self.0@
    }
}

impl BlockHeaderHash {
    /// Whether the hash holds exactly 32 bytes.
    pub open spec fn wf(&self) -> bool {
        self@.len() == 32
    }

    /// Wraps 32 bytes as a block header hash.
    pub fn new(bytes: Vec<u8>) -> (r: BlockHeaderHash)
        requires
            bytes@.len() == 32,
        ensures
            r@ == bytes@,
            r.wf(),
    {
        BlockHeaderHash(bytes)
    }
}

/// Compares two block header hashes by their bytes.
pub fn hash_eq(a: &BlockHeaderHash, b: &BlockHeaderHash) -> (r: bool)
    ensures
        r == (a@ == b@),
{
    if a.0.len() != b.0.len() {
        proof {
            assert(a@.len() != b@.len());
        }
        return false;
    }
    let n = a.0.len();
    let mut i: usize = 0;
    while i < n
        invariant
            n == a@.len(),
            n == b@.len(),
            0 <= i <= n,
            forall|j: int| 0 <= j < i ==> a@[j] == b@[j],
        decreases n - i,
    {
        if a.0[i] != b.0[i] {
            return false;
        }
        i = i + 1;
    }
    proof {
        assert(a@ =~= b@);
    }
    true
}

/// The handshake greeting. The initiator announces its protocol version,
/// the port it listens on, its chain height, and a fresh random nonce that
/// identifies this connection attempt.
#[derive(Clone, Copy, Debug, PartialEq, Eq, Structural)]
pub struct Version {
    /// The protocol version spoken.
    pub version: u64,
    /// The port the sender accepts inbound connections on.
    pub listener_port: u16,
    /// The sender's current block height.
    pub height: u32,
    /// The nonce of this connection attempt.
    pub nonce: u64,
}

impl Version {
    /// Builds a handshake greeting.
    pub fn new(version: u64, listener_port: u16, height: u32, nonce: u64) -> (r: Version)
        ensures
            r == (Version { version, listener_port, height, nonce }),
    {
        Version { version, listener_port, height, nonce }
    }
}

/// The handshake acknowledgement, tagged with the nonce of the `Version`
/// it answers.
#[derive(Clone, Copy, Debug, PartialEq, Eq, Structural)]
pub struct Verack {
    /// The nonce of the `Version` message being acknowledged.
    pub nonce: u64,
}

impl Verack {
    /// Builds an acknowledgement for the given nonce.
    pub fn new(nonce: u64) -> (r: Verack)
        ensures
            r.nonce == nonce,
    {
        Verack { nonce }
    }
}

/// The body of a protocol message.
///
/// Blocks and transactions travel as opaque byte strings: validating and
/// hashing them is the consensus collaborator's work.
#[derive(Clone, Debug, PartialEq, Eq)]
pub enum Payload {
    /// A gossiped block, as serialized bytes.
    Block(Vec<u8>),
    /// A request for the blocks with the given header hashes.
    GetBlocks(Vec<BlockHeaderHash>),
    /// A request for the remote peer's memory-pool transactions.
    GetMemoryPool,
    /// A request for the addresses of the remote peer's peers.
    GetPeers,
    /// A request to compare chain state, carrying the sender's block
    /// locator hashes.
    GetSync(Vec<BlockHeaderHash>),
    /// A batch of serialized memory-pool transactions.
    MemoryPool(Vec<Vec<u8>>),
    /// A liveness probe carrying the sender's block height.
    Ping(u32),
    /// The answer to a `Ping`.
    Pong,
    /// The answer to `GetSync`: header hashes the requester is missing.
    Sync(Vec<BlockHeaderHash>),
    /// A block sent in answer to `GetBlocks`; never re-propagated.
    SyncBlock(Vec<u8>),
    /// A gossiped transaction, as serialized bytes.
    Transaction(Vec<u8>),
    /// The handshake acknowledgement.
    Verack(Verack),
    /// The handshake greeting.
    Version(Version),
    /// The answer to `GetPeers`: listener addresses.
    Peers(Vec<PeerAddress>),
}

/// The mathematical model of a payload: the same variants over sequences.
pub enum PayloadModel {
    /// Model of `Payload::Block`.
    Block(Seq<u8>),
    /// Model of `Payload::GetBlocks`.
    GetBlocks(Seq<Seq<u8>>),
    /// Model of `Payload::GetMemoryPool`.
    GetMemoryPool,
    /// Model of `Payload::GetPeers`.
    GetPeers,
    /// Model of `Payload::GetSync`.
    GetSync(Seq<Seq<u8>>),
    /// Model of `Payload::MemoryPool`.
    MemoryPool(Seq<Seq<u8>>),
    /// Model of `Payload::Ping`.
    Ping(u32),
    /// Model of `Payload::Pong`.
    Pong,
    /// Model of `Payload::Sync`.
    Sync(Seq<Seq<u8>>),
    /// Model of `Payload::SyncBlock`.
    SyncBlock(Seq<u8>),
    /// Model of `Payload::Transaction`.
    Transaction(Seq<u8>),
    /// Model of `Payload::Verack`.
    Verack(Verack),
    /// Model of `Payload::Version`.
    Version(Version),
    /// Model of `Payload::Peers`.
    Peers(Seq<PeerAddress>),
}

/// The views of a sequence of block header hashes.
pub open spec fn hashes_view(v: Seq<BlockHeaderHash>) -> Seq<Seq<u8>> {
    v.map_values(|h: BlockHeaderHash| h@)
}

/// The views of a sequence of byte vectors.
pub open spec fn bytes_view(v: Seq<Vec<u8>>) -> Seq<Seq<u8>> {
    v.map_values(|b: Vec<u8>| b@)
}

impl Payload {
    /// Whether every hash carried by the payload has its fixed width.
    pub open spec fn wf(&self) -> bool {
        match self {
            Payload::GetBlocks(hs) => forall|i: int|
                0 <= i < hs@.len() ==> (#[trigger] hs@[i]).wf(),
            Payload::GetSync(hs) => forall|i: int|
                0 <= i < hs@.len() ==> (#[trigger] hs@[i]).wf(),
            Payload::Sync(hs) => forall|i: int| 0 <= i < hs@.len() ==> (#[trigger] hs@[i]).wf(),
            _ => true,
        }
    }
}

impl View for Payload {
    type V = PayloadModel;

    open spec fn view(&self) -> PayloadModel {
        match self {
            Payload::Block(b) => PayloadModel::Block(b@),
            Payload::GetBlocks(hs) => PayloadModel::GetBlocks(hashes_view(hs@)),
            Payload::GetMemoryPool => PayloadModel::GetMemoryPool,
            Payload::GetPeers => PayloadModel::GetPeers,
            Payload::GetSync(hs) => PayloadModel::GetSync(hashes_view(hs@)),
            Payload::MemoryPool(txs) => PayloadModel::MemoryPool(bytes_view(txs@)),
            Payload::Ping(h) => PayloadModel::Ping(*h),
            Payload::Pong => PayloadModel::Pong,
            Payload::Sync(hs) => PayloadModel::Sync(hashes_view(hs@)),
            Payload::SyncBlock(b) => PayloadModel::SyncBlock(b@),
            Payload::Transaction(b) => PayloadModel::Transaction(b@),
            Payload::Verack(v) => PayloadModel::Verack(*v),
            Payload::Version(v) => PayloadModel::Version(*v),
            Payload::Peers(ps) => PayloadModel::Peers(ps@),
        }
    }
}

/// Whether a message is bound to or came from the given peer.
#[derive(Clone, Copy, Debug, PartialEq, Eq, Structural)]
pub enum Direction {
    /// The message is to be sent to the given peer.
    Outbound(PeerAddress),
    /// The message was received from the given peer.
    Inbound(PeerAddress),
}

/// A payload together with the peer it is bound to or came from.
#[derive(Clone, Debug, PartialEq, Eq)]
pub struct Message {
    /// Where the message goes or came from.
    pub direction: Direction,
    /// What the message says.
    pub payload: Payload,
}

impl Message {
    /// Pairs a payload with a direction.
    pub fn new(direction: Direction, payload: Payload) -> (r: Message)
        ensures
            r.direction == direction,
            r.payload == payload,
    {
        Message { direction, payload }
    }
}

/// What the inbound receive handler tells the rest of the node about one
/// decoded message.
#[derive(Debug)]
pub enum Response {
    /// The handler is connecting to the given peer with the given nonce.
    ConnectingTo(PeerAddress, u64),
    /// The handler has connected to the given peer with the given nonce.
    ConnectedTo(PeerAddress, u64),
    /// A version message arrived; a verack is to be sent back.
    VersionToVerack(PeerAddress, Version),
    /// A verack arrived from the given peer.
    Verack(PeerAddress, Verack),
    /// The connection to the given peer is to be dropped.
    DisconnectFrom(PeerAddress),
    /// A new transaction arrived from the given peer.
    Transaction(PeerAddress, Vec<u8>),
    /// A getpeers message arrived.
    GetPeers(PeerAddress),
    /// A peers response arrived.
    Peers(PeerAddress, Vec<PeerAddress>),
    /// A block arrived; the flag says whether it may be propagated.
    Block(PeerAddress, Vec<u8>, bool),
    /// A getblocks message arrived.
    GetBlock(PeerAddress, Vec<BlockHeaderHash>),
    /// A getmemorypool message arrived.
    GetMemoryPool(PeerAddress),
    /// A memory pool batch arrived.
    MemoryPool(Vec<Vec<u8>>),
    /// A getsync message arrived.
    GetSync(PeerAddress, Vec<BlockHeaderHash>),
    /// A sync message arrived.
    Sync(PeerAddress, Vec<BlockHeaderHash>),
}

} // verus!
