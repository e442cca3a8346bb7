use vstd::prelude::*;

verus! {

/// Errors raised by the networking core.
#[derive(Clone, Copy, Debug, PartialEq, Eq, Structural)]
pub enum NetworkError {
    /// `set_connecting` was called on a peer that is already connected.
    PeerAlreadyConnected,
    /// A peer-book lookup found no record for the requested address.
    PeerBookMissingPeer,
    /// The serialized peer book could not be read back.
    PeerBookFailedToLoad,
    /// A received block exceeds the configured maximum block size.
    BlockTooLarge,
    /// A requested block hash is not present in storage.
    StorageBlockMissing,
}

impl NetworkError {
    /// A human-readable description of the error.
    pub fn description(&self) -> String {
        match self {
            NetworkError::PeerAlreadyConnected => "peer is already connected".to_string(),
            NetworkError::PeerBookMissingPeer => "peer is missing from the peer book".to_string(),
            NetworkError::PeerBookFailedToLoad => "the peer book failed to load".to_string(),
            NetworkError::BlockTooLarge => "the block is too large".to_string(),
            NetworkError::StorageBlockMissing => "the block is missing from storage".to_string(),
        }
    }
}

/// Errors raised by the RPC endpoints.
#[derive(Clone, Debug, PartialEq, Eq)]
pub enum RpcError {
    /// The node runs without a consensus component.
    NoConsensus,
    /// The given block hash is not a canonical block of this chain.
    InvalidBlockHash(String),
    /// The given string is not well-formed hexadecimal.
    InvalidHexString,
    /// No transaction with the given identifier is stored.
    UnknownTransaction,
}

/// Errors raised while framing or parsing wire messages.
#[derive(Clone, Copy, Debug, PartialEq, Eq, Structural)]
pub enum CodecError {
    /// A field exceeds the cap the codec was asked to respect.
    EncodingTooLarge,
    /// The bytes are not a well-formed message: unknown tag, truncated
    /// field, inconsistent length prefix, or trailing bytes.
    MalformedFrame,
    /// The declared frame length exceeds the per-message cap.
    FrameTooLarge,
    /// The buffer does not yet hold a complete frame.
    NeedMore,
}

} // verus!
