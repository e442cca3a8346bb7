//! Per-peer records: connection state, timestamps, counters and quality.

use vstd::prelude::*;

use crate::message::PeerAddress;

verus! {

/// `x + 1`, stopping at the top of the counter's range.
pub open spec fn sat_inc(x: u64) -> u64 {
    if x < u64::MAX {
        (x + 1) as u64
    } else {
        x
    }
}

/// Whether timestamp `a` is no later than `b`; an absent timestamp is
/// earlier than any present one.
pub open spec fn ts_le(a: Option<i64>, b: Option<i64>) -> bool {
    match a {
        Option::None => true,
        Option::Some(x) => match b {
            Option::None => false,
            Option::Some(y) => x <= y,
        },
    }
}

/// The connection state of a peer.
#[derive(Clone, Copy, Debug, PartialEq, Eq, Structural)]
pub enum PeerState {
    /// The peer has never been connected to.
    NeverConnected,
    /// A handshake with the peer is under way.
    Connecting,
    /// The peer is connected.
    Connected,
    /// The peer was connected once and is not any more.
    Disconnected,
}

/// The quality block of a peer: liveness and sync bookkeeping, updated
/// on every ping, pong and sync block.
#[derive(Clone, Copy, Debug, PartialEq, Eq, Structural)]
pub struct PeerQuality {
    /// The last measured round-trip time, in milliseconds.
    pub rtt_ms: u64,
    /// Whether a ping is outstanding and a pong is awaited.
    pub expecting_pong: bool,
    /// When the outstanding ping was sent, in milliseconds.
    pub last_ping_sent: Option<i64>,
    /// How many protocol failures the peer has accumulated.
    pub failures: u64,
    /// How many sync blocks the peer still owes from the current sync
    /// round.
    pub remaining_sync_blocks: u16,
    /// When the peer was last seen, in milliseconds.
    pub last_seen: Option<i64>,
}

/// The quality block of a peer nothing has been measured of yet.
pub open spec fn initial_quality() -> PeerQuality {
    PeerQuality {
        rtt_ms: 0u64,
        expecting_pong: false,
        last_ping_sent: Option::None::<i64>,
        failures: 0u64,
        remaining_sync_blocks: 0u16,
        last_seen: Option::None::<i64>,
    }
}

impl PeerQuality {
    /// A fresh quality block: nothing measured, nothing owed.
    pub fn new() -> (r: PeerQuality)
        ensures
            r == initial_quality(),
    {
        PeerQuality {
            rtt_ms: 0,
            expecting_pong: false,
            last_ping_sent: None,
            failures: 0,
            remaining_sync_blocks: 0,
            last_seen: None,
        }
    }
}

/// Everything the node remembers about one peer, keyed by its listener
/// address.
#[derive(Clone, Copy, Debug, PartialEq, Eq, Structural)]
pub struct PeerInfo {
    /// The peer's listener address.
    pub address: PeerAddress,
    /// The peer's connection state.
    pub state: PeerState,
    /// When the peer was first discovered, in milliseconds.
    pub first_seen: Option<i64>,
    /// When the peer last became connected, in milliseconds.
    pub last_connected: Option<i64>,
    /// When the peer last became disconnected, in milliseconds.
    pub last_disconnected: Option<i64>,
    /// How often the peer has become connected.
    pub connection_count: u64,
    /// How often the peer has become disconnected.
    pub disconnection_count: u64,
    /// The peer's quality block.
    pub quality: PeerQuality,
}

/// The record of a peer first discovered at time `now`: never connected,
/// nothing counted.
pub open spec fn initial_info(address: PeerAddress, now: i64) -> PeerInfo {
    PeerInfo {
        address,
        state: PeerState::NeverConnected,
        first_seen: Option::Some(now),
        last_connected: Option::None::<i64>,
        last_disconnected: Option::None::<i64>,
        connection_count: 0u64,
        disconnection_count: 0u64,
        quality: initial_quality(),
    }
}

impl PeerInfo {
    /// The record's internal consistency: the counters match the state,
    /// and an awaited pong has a ping time to measure against.
    pub open spec fn wf(&self) -> bool {
        &&& match self.state {
            PeerState::NeverConnected => self.connection_count == 0 && self.disconnection_count
                == 0,
            PeerState::Connecting => true,
            PeerState::Connected => self.connection_count == sat_inc(self.disconnection_count),
            PeerState::Disconnected => self.connection_count == self.disconnection_count,
        }
        &&& (self.quality.expecting_pong ==> self.quality.last_ping_sent is Some)
    }

    /// A fresh record for a peer first discovered at time `now`.
    pub fn new(address: PeerAddress, now: i64) -> (r: PeerInfo)
        ensures
            r == initial_info(address, now),
            r.wf(),
            r.address == address,
            r.state == PeerState::NeverConnected,
            r.first_seen == Option::Some(now),
            r.last_connected is None,
            r.last_disconnected is None,
            r.connection_count == 0,
            r.disconnection_count == 0,
            r.quality == initial_quality(),
    {
        PeerInfo {
            address,
            state: PeerState::NeverConnected,
            first_seen: Some(now),
            last_connected: None,
            last_disconnected: None,
            connection_count: 0,
            disconnection_count: 0,
            quality: PeerQuality::new(),
        }
    }

    /// When the peer was last seen.
    pub fn last_seen(&self) -> (r: Option<i64>)
        ensures
            r == self.quality.last_seen,
    {
        self.quality.last_seen
    }

    /// Marks the peer connected at time `now`: counts the connection
    /// unless it already was connected.
    pub fn set_connected(&mut self, now: i64)
        requires
            old(self).wf(),
            old(self).state != PeerState::Connecting,
        ensures
            final(self).wf(),
            final(self).state == PeerState::Connected,
            final(self).last_connected == Option::Some(now),
            final(self).connection_count == (if old(self).state == PeerState::Connected {
                old(self).connection_count
            } else {
                sat_inc(old(self).connection_count)
            }),
            final(self).connection_count >= 1,
            final(self).address == old(self).address,
            final(self).first_seen == old(self).first_seen,
            final(self).last_disconnected == old(self).last_disconnected,
            final(self).disconnection_count == old(self).disconnection_count,
            final(self).quality == old(self).quality,
    {
        if !matches!(self.state, PeerState::Connected) {
            if self.connection_count < u64::MAX {
                self.connection_count = self.connection_count + 1;
            }
        }
        self.state = PeerState::Connected;
        self.last_connected = Some(now);
    }

    /// Marks the peer disconnected at time `now` and counts the
    /// disconnection.
    pub fn set_disconnected(&mut self, now: i64)
        requires
            old(self).wf(),
            old(self).state == PeerState::Connected,
        ensures
            final(self).wf(),
            final(self).state == PeerState::Disconnected,
            final(self).last_disconnected == Option::Some(now),
            final(self).disconnection_count == sat_inc(old(self).disconnection_count),
            final(self).disconnection_count >= final(self).connection_count >= 1,
            final(self).address == old(self).address,
            final(self).first_seen == old(self).first_seen,
            final(self).last_connected == old(self).last_connected,
            final(self).connection_count == old(self).connection_count,
            final(self).quality == old(self).quality,
    {
        if self.disconnection_count < u64::MAX {
            self.disconnection_count = self.disconnection_count + 1;
        }
        self.state = PeerState::Disconnected;
        self.last_disconnected = Some(now);
    }
}

} // verus!
