//! Peer-to-peer networking and block-synchronization core of a blockchain
//! full node.
//!
//! The library keeps the authoritative registry of peer connections (the
//! [`peer_book::PeerBook`]), frames and parses the wire protocol
//! ([`message`] and [`codec`]), and decides how a node reacts to each
//! inbound message: block synchronization, memory-pool gossip and the
//! handshake ([`consensus`] and [`node`]).
//!
//! Consensus validation, cryptographic hashing and the on-disk ledger are
//! external collaborators: their verdicts enter the library as plain
//! values, and everything the library decides from those values is
//! verified.

pub mod chain;
pub mod clock;
pub mod codec;
pub mod consensus;
pub mod errors;
pub mod hexstr;
pub mod mempool;
pub mod message;
pub mod node;
pub mod peer_book;
pub mod peer_info;
pub mod rpc;

use vstd::prelude::*;

verus! {

/// The maximum number of block hashes exchanged in one sync round, and the
/// chunk size for `GetBlocks` requests.
pub const MAX_BLOCK_SYNC_COUNT: u32 = 64;

/// The hard cap on the payload size of a single protocol message.
pub const MAX_MESSAGE_SIZE: u32 = 16 * 1024 * 1024;

} // verus!
