//! The peer book: the single source of truth for peer connectivity.
//!
//! A listener address is held in up to one of three collections:
//! *connecting* (a handshake is under way), *connected* (with its
//! [`PeerInfo`]) and *disconnected* (with the history kept for later
//! dials). An address is never both connected and connecting, nor both
//! connected and disconnected; a re-dialed address may transiently be
//! connecting and disconnected at once.

use vstd::prelude::*;

use crate::clock::now_millis;
use crate::errors::NetworkError;
use crate::message::PeerAddress;
use crate::peer_info::{sat_inc, ts_le, PeerInfo, PeerQuality, PeerState};

verus! {

/// Whether some record in the sequence is keyed by the given address.
pub open spec fn has_addr(s: Seq<PeerInfo>, a: PeerAddress) -> bool {
    exists|i: int| 0 <= i < s.len() && (#[trigger] s[i]).address == a
}

/// The position of the record keyed by the given address.
pub open spec fn addr_index(s: Seq<PeerInfo>, a: PeerAddress) -> int {
    choose|i: int| 0 <= i < s.len() && (#[trigger] s[i]).address == a
}

/// The record keyed by the given address.
pub open spec fn info_of(s: Seq<PeerInfo>, a: PeerAddress) -> PeerInfo {
    s[addr_index(s, a)]
}

/// Whether no two records share an address.
pub open spec fn distinct_addrs(s: Seq<PeerInfo>) -> bool {
    forall|i: int, j: int|
        0 <= i < j < s.len() ==> (#[trigger] s[i]).address != (#[trigger] s[j]).address
}

/// Whether no address occurs twice.
pub open spec fn distinct_peer_addrs(s: Seq<PeerAddress>) -> bool {
    forall|i: int, j: int| 0 <= i < j < s.len() ==> #[trigger] s[i] != #[trigger] s[j]
}

/// A record keyed by an address at a known position is the record the
/// address maps to.
pub proof fn lemma_addr_index(s: Seq<PeerInfo>, a: PeerAddress, i: int)
    requires
        distinct_addrs(s),
        0 <= i < s.len(),
        s[i].address == a,
    ensures
        has_addr(s, a),
        addr_index(s, a) == i,
        info_of(s, a) == s[i],
{
    assert(has_addr(s, a));
    let j = addr_index(s, a);
    assert(0 <= j < s.len() && s[j].address == a);
    if i != j {
        if i < j {
            assert(s[i].address != s[j].address);
        } else {
            assert(s[j].address != s[i].address);
        }
    }
}

/// A data structure for storing the history of all peers of this node.
#[derive(Clone, Debug)]
pub struct PeerBook {
    /// The addresses a handshake is under way with.
    connecting_peers: Vec<PeerAddress>,
    /// The records of the connected peers.
    connected_peers: Vec<PeerInfo>,
    /// The records of the disconnected peers.
    disconnected_peers: Vec<PeerInfo>,
}

impl PeerBook {
    /// The addresses a handshake is under way with, in order.
    pub closed spec fn spec_connecting_seq(self) -> Seq<PeerAddress> {
        self.connecting_peers@
    }

    /// Whether a handshake with the address is under way.
    pub open spec fn spec_connecting(self, a: PeerAddress) -> bool {
        self.spec_connecting_seq().contains(a)
    }

    /// Whether the address is connected.
    pub open spec fn spec_connected(self, a: PeerAddress) -> bool {
        has_addr(self.spec_connected_seq(), a)
    }

    /// Whether the address is disconnected.
    pub open spec fn spec_disconnected(self, a: PeerAddress) -> bool {
        has_addr(self.spec_disconnected_seq(), a)
    }

    /// The record of a connected address.
    pub open spec fn spec_connected_info(self, a: PeerAddress) -> PeerInfo {
        info_of(self.spec_connected_seq(), a)
    }

    /// The record of a disconnected address.
    pub open spec fn spec_disconnected_info(self, a: PeerAddress) -> PeerInfo {
        info_of(self.spec_disconnected_seq(), a)
    }

    /// The records of the connected peers, in order.
    pub closed spec fn spec_connected_seq(self) -> Seq<PeerInfo> {
        self.connected_peers@
    }

    /// The records of the disconnected peers, in order.
    pub closed spec fn spec_disconnected_seq(self) -> Seq<PeerInfo> {
        self.disconnected_peers@
    }

    /// How many handshakes are under way.
    pub open spec fn spec_num_connecting(self) -> nat {
        self.spec_connecting_seq().len()
    }

    /// How many peers are connected.
    pub open spec fn spec_num_connected(self) -> nat {
        self.spec_connected_seq().len()
    }

    /// How many peers are disconnected.
    pub open spec fn spec_num_disconnected(self) -> nat {
        self.spec_disconnected_seq().len()
    }

    /// The book's invariant: each collection is keyed at most once per
    /// address, each record is internally consistent and in the state
    /// of its collection, and a connected address is in neither other
    /// collection.
    pub closed spec fn wf(self) -> bool {
        &&& distinct_peer_addrs(self.connecting_peers@)
        &&& distinct_addrs(self.connected_peers@)
        &&& distinct_addrs(self.disconnected_peers@)
        &&& forall|i: int|
            0 <= i < self.connected_peers@.len() ==> (#[trigger] self.connected_peers@[i]).wf()
                && self.connected_peers@[i].state == PeerState::Connected
        &&& forall|i: int|
            0 <= i < self.disconnected_peers@.len() ==> (
            #[trigger] self.disconnected_peers@[i]).wf() && self.disconnected_peers@[i].state
                != PeerState::Connected && self.disconnected_peers@[i].state
                != PeerState::Connecting
        &&& forall|i: int|
            0 <= i < self.connected_peers@.len() ==> !self.connecting_peers@.contains(
                (#[trigger] self.connected_peers@[i]).address,
            ) && !has_addr(self.disconnected_peers@, self.connected_peers@[i].address)
    }

    /// An empty peer book.
    pub fn new() -> (r: PeerBook)
        ensures
            r.wf(),
            r.spec_connecting_seq() == Seq::<PeerAddress>::empty(),
            r.spec_connected_seq() == Seq::<PeerInfo>::empty(),
            r.spec_disconnected_seq() == Seq::<PeerInfo>::empty(),
    {
        PeerBook { connecting_peers: Vec::new(), connected_peers: Vec::new(), disconnected_peers: Vec::new() }
    }

    /// An empty peer book, as `new` gives.
    pub fn default() -> (r: PeerBook)
        ensures
            r.wf(),
            r.spec_connecting_seq() == Seq::<PeerAddress>::empty(),
            r.spec_connected_seq() == Seq::<PeerInfo>::empty(),
            r.spec_disconnected_seq() == Seq::<PeerInfo>::empty(),
    {
        PeerBook::new()
    }
}

impl PeerBook {
    /// Returns `true` if a given address is a connecting peer in the
    /// `PeerBook`.
    pub fn is_connecting(&self, address: PeerAddress) -> (r: bool)
        ensures
            r == self.spec_connecting(address),
    {
        match find_addr(&self.connecting_peers, address) {
            Some(i) => {
                proof {
                    assert(self.connecting_peers@.contains(address));
                }
                true
            },
            None => false,
        }
    }

    /// Returns `true` if a given address is a connected peer in the
    /// `PeerBook`.
    pub fn is_connected(&self, address: PeerAddress) -> (r: bool)
        ensures
            r == self.spec_connected(address),
    {
        match find_index(&self.connected_peers, address) {
            Some(i) => {
                proof {
                    assert(has_addr(self.connected_peers@, address));
                }
                true
            },
            None => false,
        }
    }

    /// Returns `true` if a given address is a disconnected peer in the
    /// `PeerBook`.
    pub fn is_disconnected(&self, address: PeerAddress) -> (r: bool)
        ensures
            r == self.spec_disconnected(address),
    {
        match find_index(&self.disconnected_peers, address) {
            Some(i) => {
                proof {
                    assert(has_addr(self.disconnected_peers@, address));
                }
                true
            },
            None => false,
        }
    }

    /// Returns the number of connecting peers.
    pub fn number_of_connecting_peers(&self) -> (r: usize)
        ensures
            r == self.spec_num_connecting(),
    {
        self.connecting_peers.len()
    }

    /// Returns the number of connected peers.
    pub fn number_of_connected_peers(&self) -> (r: usize)
        ensures
            r == self.spec_num_connected(),
    {
        self.connected_peers.len()
    }

    /// Returns the number of disconnected peers.
    pub fn number_of_disconnected_peers(&self) -> (r: usize)
        ensures
            r == self.spec_num_disconnected(),
    {
        self.disconnected_peers.len()
    }

    /// Returns the connecting addresses of this peer book.
    pub fn connecting_peers(&self) -> (r: Vec<PeerAddress>)
        ensures
            r@ == self.spec_connecting_seq(),
    {
        let n = self.connecting_peers.len();
        let mut out: Vec<PeerAddress> = Vec::new();
        let mut i: usize = 0;
        while i < n
            invariant
                n == self.connecting_peers@.len(),
                0 <= i <= n,
                out@ == self.connecting_peers@.take(i as int),
            decreases n - i,
        {
            out.push(self.connecting_peers[i]);
            proof {
                assert(self.connecting_peers@.take(i + 1) =~= self.connecting_peers@.take(
                    i as int,
                ).push(self.connecting_peers@[i as int]));
            }
            i = i + 1;
        }
        proof {
            assert(self.connecting_peers@.take(n as int) =~= self.connecting_peers@);
        }
        out
    }

    /// Returns the records of the connected peers of this peer book.
    pub fn connected_peers(&self) -> (r: Vec<PeerInfo>)
        ensures
            r@ == self.spec_connected_seq(),
    {
        copy_infos(&self.connected_peers)
    }

    /// Returns the records of the disconnected peers of this peer book.
    pub fn disconnected_peers(&self) -> (r: Vec<PeerInfo>)
        ensures
            r@ == self.spec_disconnected_seq(),
    {
        copy_infos(&self.disconnected_peers)
    }

    /// Returns the record of the given address, if the address is
    /// connected or disconnected.
    pub fn get_peer(&self, address: PeerAddress) -> (r: Result<&PeerInfo, NetworkError>)
        requires
            self.wf(),
        ensures
            r is Ok <==> (self.spec_connected(address) || self.spec_disconnected(address)),
            r is Err ==> r->Err_0 == NetworkError::PeerBookMissingPeer,
            self.spec_connected(address) ==> r is Ok && *r->Ok_0 == self.spec_connected_info(
                address,
            ),
            !self.spec_connected(address) && self.spec_disconnected(address) ==> r is Ok
                && *r->Ok_0 == self.spec_disconnected_info(address),
    {
        match find_index(&self.connected_peers, address) {
            Some(i) => {
                proof {
                    lemma_addr_index(self.connected_peers@, address, i as int);
                }
                Ok(&self.connected_peers[i])
            },
            None => match find_index(&self.disconnected_peers, address) {
                Some(i) => {
                    proof {
                        lemma_addr_index(self.disconnected_peers@, address, i as int);
                    }
                    Ok(&self.disconnected_peers[i])
                },
                None => Err(NetworkError::PeerBookMissingPeer),
            },
        }
    }

    /// Marks the given address as "connecting".
    ///
    /// Fails with `PeerAlreadyConnected`, and changes nothing, exactly
    /// when the address is already connected.
    pub fn set_connecting(&mut self, address: PeerAddress) -> (r: Result<(), NetworkError>)
        requires
            old(self).wf(),
        ensures
            final(self).wf(),
            r is Err <==> old(self).spec_connected(address),
            r is Err ==> *final(self) == *old(self) && r->Err_0
                == NetworkError::PeerAlreadyConnected,
            r is Ok ==> set_connecting_rel(*old(self), *final(self), address),
    {
        if self.is_connected(address) {
            return Err(NetworkError::PeerAlreadyConnected);
        }
        match find_addr(&self.connecting_peers, address) {
            Some(_) => {
                proof {
                    assert(self.connecting_peers@.contains(address));
                }
                Ok(())
            },
            None => {
                let ghost pre = self.connecting_peers@;
                self.connecting_peers.push(address);
                proof {
                    assert(self.connecting_peers@ =~= pre.push(address));
                    assert forall|a2: PeerAddress| #[trigger]
                        self.connecting_peers@.contains(a2) == (pre.contains(a2) || a2
                            == address) by {
                        if pre.contains(a2) {
                            let k = choose|k: int| 0 <= k < pre.len() && pre[k] == a2;
                            assert(self.connecting_peers@[k] == a2);
                            assert(self.connecting_peers@.contains(a2));
                        }
                        if a2 == address {
                            assert(self.connecting_peers@[pre.len() as int] == a2);
                            assert(self.connecting_peers@.contains(a2));
                        }
                        if self.connecting_peers@.contains(a2) {
                            let k = choose|k: int|
                                0 <= k < self.connecting_peers@.len()
                                    && self.connecting_peers@[k] == a2;
                            if k < pre.len() {
                                assert(pre[k] == a2);
                            } else {
                                assert(a2 == address);
                            }
                        }
                    }
                    assert(distinct_peer_addrs(self.connecting_peers@)) by {
                        assert forall|x: int, y: int|
                            0 <= x < y < self.connecting_peers@.len() implies #[trigger]
                            self.connecting_peers@[x] != #[trigger] self.connecting_peers@[y] by {
                            if y == pre.len() {
                                assert(self.connecting_peers@[x] == pre[x]);
                                assert(!pre.contains(address) ==> pre[x] != address);
                            } else {
                                assert(self.connecting_peers@[x] == pre[x]
                                    && self.connecting_peers@[y] == pre[y]);
                            }
                        }
                    }
                }
                Ok(())
            },
        }
    }

    /// Adds the given address to the connected peers in the `PeerBook`.
    ///
    /// `listener`, when given, is the peer's stable listener address and
    /// keys the record; `address` is the transient address of the
    /// handshake and leaves the connecting set.
    pub fn set_connected(&mut self, address: PeerAddress, listener: Option<PeerAddress>) -> (r:
        Result<(), NetworkError>)
        requires
            old(self).wf(),
        ensures
            final(self).wf(),
            r is Ok,
            exists|t: i64| set_connected_rel(*old(self), *final(self), address, listener, t),
    {
        let now = now_millis();
        let r = self.set_connected_at(address, listener, now);
        proof {
            assert(set_connected_rel(*old(self), *self, address, listener, now));
        }
        r
    }

    /// Adds the given address to the connected peers, at time `now`.
    pub fn set_connected_at(
        &mut self,
        address: PeerAddress,
        listener: Option<PeerAddress>,
        now: i64,
    ) -> (r: Result<(), NetworkError>)
        requires
            old(self).wf(),
        ensures
            final(self).wf(),
            r is Ok,
            set_connected_rel(*old(self), *final(self), address, listener, now),
    {
        let key = match listener {
            Some(l) => l,
            None => address,
        };
        let mut info = match remove_by_addr(&mut self.connected_peers, key) {
            Some(pi) => pi,
            None => match remove_by_addr(&mut self.disconnected_peers, key) {
                Some(pi) => pi,
                None => PeerInfo::new(key, now),
            },
        };
        remove_addr(&mut self.connecting_peers, address);
        remove_addr(&mut self.connecting_peers, key);
        proof {
            let src = if old(self).spec_connected(key) {
                old(self).spec_connected_info(key)
            } else if old(self).spec_disconnected(key) {
                old(self).spec_disconnected_info(key)
            } else {
                crate::peer_info::initial_info(key, now)
            };
            assert(info == src);
            assert(info.wf() && info.state != PeerState::Connecting) by {
                if old(self).spec_connected(key) {
                    let k = addr_index(old(self).connected_peers@, key);
                    assert(old(self).connected_peers@[k].wf());
                } else if old(self).spec_disconnected(key) {
                    let k = addr_index(old(self).disconnected_peers@, key);
                    assert(old(self).disconnected_peers@[k].wf());
                }
            }
        }
        info.set_connected(now);
        let ghost mid = self.connected_peers@;
        self.connected_peers.push(info);
        proof {
            lemma_push_new_info(mid, info);
            // The whole book is well formed again.
            assert forall|i: int|
                0 <= i < self.connected_peers@.len() implies (
            #[trigger] self.connected_peers@[i]).wf() && self.connected_peers@[i].state
                == PeerState::Connected by {
                if i < mid.len() {
                    assert(self.connected_peers@[i] == mid[i]);
                    assert(old(self).connected_peers@.contains(mid[i]));
                    let j = choose|j: int|
                        0 <= j < old(self).connected_peers@.len() && old(
                            self,
                        ).connected_peers@[j] == mid[i];
                    assert(old(self).connected_peers@[j].wf());
                } else {
                    assert(self.connected_peers@[i] == info);
                }
            }
            assert forall|i: int|
                0 <= i < self.disconnected_peers@.len() implies (
            #[trigger] self.disconnected_peers@[i]).wf() && self.disconnected_peers@[i].state
                != PeerState::Connected && self.disconnected_peers@[i].state
                != PeerState::Connecting by {
                assert(old(self).disconnected_peers@.contains(self.disconnected_peers@[i]));
                let j = choose|j: int|
                    0 <= j < old(self).disconnected_peers@.len() && old(
                        self,
                    ).disconnected_peers@[j] == self.disconnected_peers@[i];
                assert(old(self).disconnected_peers@[j].wf());
            }
            assert forall|i: int|
                0 <= i < self.connected_peers@.len() implies !self.connecting_peers@.contains(
                (#[trigger] self.connected_peers@[i]).address,
            ) && !has_addr(self.disconnected_peers@, self.connected_peers@[i].address) by {
                let a2 = self.connected_peers@[i].address;
                if i < mid.len() {
                    assert(self.connected_peers@[i] == mid[i]);
                    assert(old(self).connected_peers@.contains(mid[i]));
                    let j = choose|j: int|
                        0 <= j < old(self).connected_peers@.len() && old(
                            self,
                        ).connected_peers@[j] == mid[i];
                    assert(!old(self).connecting_peers@.contains(a2));
                    assert(!has_addr(old(self).disconnected_peers@, a2));
                    if a2 == key {
                        lemma_addr_index(old(self).connected_peers@, key, j);
                        assert(false);
                    }
                } else {
                    assert(self.connected_peers@[i] == info);
                    assert(a2 == key);
                }
            }
        }
        Ok(())
    }

    /// Removes the given address from the connecting and connected
    /// peers in this `PeerBook`, and records it among the disconnected
    /// peers.
    pub fn set_disconnected(&mut self, address: PeerAddress) -> (r: Result<(), NetworkError>)
        requires
            old(self).wf(),
        ensures
            final(self).wf(),
            r is Ok,
            exists|t: i64| set_disconnected_rel(*old(self), *final(self), address, t),
    {
        let now = now_millis();
        let r = self.set_disconnected_at(address, now);
        proof {
            assert(set_disconnected_rel(*old(self), *self, address, now));
        }
        r
    }

    /// Removes the given address from the connecting and connected
    /// peers, at time `now`.
    pub fn set_disconnected_at(&mut self, address: PeerAddress, now: i64) -> (r: Result<
        (),
        NetworkError,
    >)
        requires
            old(self).wf(),
        ensures
            final(self).wf(),
            r is Ok,
            set_disconnected_rel(*old(self), *final(self), address, now),
    {
        match find_addr(&self.connecting_peers, address) {
            Some(_) => {
                proof {
                    assert(self.connecting_peers@.contains(address));
                }
                remove_addr(&mut self.connecting_peers, address);
                return Ok(());
            },
            None => {},
        }
        match remove_by_addr(&mut self.connected_peers, address) {
            Some(mut info) => {
                proof {
                    let k = addr_index(old(self).connected_peers@, address);
                    assert(old(self).connected_peers@[k].wf());
                }
                info.set_disconnected(now);
                let ghost mid = self.disconnected_peers@;
                self.disconnected_peers.push(info);
                proof {
                    assert(!has_addr(mid, address)) by {
                        let k = addr_index(old(self).connected_peers@, address);
                        assert(!has_addr(old(self).disconnected_peers@, address));
                    }
                    lemma_push_new_info(mid, info);
                    assert forall|i: int|
                        0 <= i < self.disconnected_peers@.len() implies (
                    #[trigger] self.disconnected_peers@[i]).wf()
                        && self.disconnected_peers@[i].state != PeerState::Connected
                        && self.disconnected_peers@[i].state != PeerState::Connecting by {
                        if i < mid.len() {
                            assert(self.disconnected_peers@[i] == mid[i]);
                            assert(old(self).disconnected_peers@[i].wf());
                        } else {
                            assert(self.disconnected_peers@[i] == info);
                        }
                    }
                    assert forall|i: int|
                        0 <= i < self.connected_peers@.len() implies !self
                        .connecting_peers@.contains(
                        (#[trigger] self.connected_peers@[i]).address,
                    ) && !has_addr(self.disconnected_peers@, self.connected_peers@[i].address) by {
                        let a2 = self.connected_peers@[i].address;
                        assert(old(self).connected_peers@.contains(self.connected_peers@[i]));
                        let j = choose|j: int|
                            0 <= j < old(self).connected_peers@.len() && old(
                                self,
                            ).connected_peers@[j] == self.connected_peers@[i];
                        assert(!old(self).connecting_peers@.contains(a2));
                        assert(!has_addr(old(self).disconnected_peers@, a2));
                        assert(a2 != address);
                    }
                }
                Ok(())
            },
            None => {
                if self.is_disconnected(address) {
                    return Ok(());
                }
                let info = PeerInfo::new(address, now);
                let ghost mid = self.disconnected_peers@;
                self.disconnected_peers.push(info);
                proof {
                    lemma_push_new_info(mid, info);
                    assert forall|i: int|
                        0 <= i < self.disconnected_peers@.len() implies (
                    #[trigger] self.disconnected_peers@[i]).wf()
                        && self.disconnected_peers@[i].state != PeerState::Connected
                        && self.disconnected_peers@[i].state != PeerState::Connecting by {
                        if i < mid.len() {
                            assert(self.disconnected_peers@[i] == mid[i]);
                            assert(old(self).disconnected_peers@[i].wf());
                        } else {
                            assert(self.disconnected_peers@[i] == info);
                        }
                    }
                    assert forall|i: int|
                        0 <= i < self.connected_peers@.len() implies !self
                        .connecting_peers@.contains(
                        (#[trigger] self.connected_peers@[i]).address,
                    ) && !has_addr(self.disconnected_peers@, self.connected_peers@[i].address) by {
                        let a2 = self.connected_peers@[i].address;
                        assert(!has_addr(old(self).disconnected_peers@, a2));
                        assert(a2 != address) by {
                            if a2 == address {
                                lemma_addr_index(self.connected_peers@, address, i);
                            }
                        }
                    }
                }
                Ok(())
            },
        }
    }

    /// Removes the given address from this `PeerBook` altogether.
    ///
    /// This is only for the case that the peer should be forgotten
    /// about permanently.
    pub fn remove_peer(&mut self, address: PeerAddress)
        requires
            old(self).wf(),
        ensures
            final(self).wf(),
            !final(self).spec_connecting(address),
            !final(self).spec_connected(address),
            !final(self).spec_disconnected(address),
            forall|a2: PeerAddress|
                a2 != address ==> ({
                    &&& final(self).spec_connecting(a2) == old(self).spec_connecting(a2)
                    &&& final(self).spec_connected(a2) == old(self).spec_connected(a2)
                    &&& final(self).spec_disconnected(a2) == old(self).spec_disconnected(a2)
                }),
            forall|a2: PeerAddress|
                a2 != address ==> ({
                    &&& old(self).spec_connected(a2) ==> final(self).spec_connected_info(a2)
                        == old(self).spec_connected_info(a2)
                    &&& old(self).spec_disconnected(a2) ==> final(self).spec_disconnected_info(a2)
                        == old(self).spec_disconnected_info(a2)
                }),
    {
        remove_addr(&mut self.connecting_peers, address);
        let _ = remove_by_addr(&mut self.connected_peers, address);
        let _ = remove_by_addr(&mut self.disconnected_peers, address);
        proof {
            assert forall|i: int|
                0 <= i < self.connected_peers@.len() implies (
            #[trigger] self.connected_peers@[i]).wf() && self.connected_peers@[i].state
                == PeerState::Connected by {
                assert(old(self).connected_peers@.contains(self.connected_peers@[i]));
                let j = choose|j: int|
                    0 <= j < old(self).connected_peers@.len() && old(self).connected_peers@[j]
                        == self.connected_peers@[i];
                assert(old(self).connected_peers@[j].wf());
            }
            assert forall|i: int|
                0 <= i < self.disconnected_peers@.len() implies (
            #[trigger] self.disconnected_peers@[i]).wf() && self.disconnected_peers@[i].state
                != PeerState::Connected && self.disconnected_peers@[i].state
                != PeerState::Connecting by {
                assert(old(self).disconnected_peers@.contains(self.disconnected_peers@[i]));
                let j = choose|j: int|
                    0 <= j < old(self).disconnected_peers@.len() && old(
                        self,
                    ).disconnected_peers@[j] == self.disconnected_peers@[i];
                assert(old(self).disconnected_peers@[j].wf());
            }
            assert forall|i: int|
                0 <= i < self.connected_peers@.len() implies !self.connecting_peers@.contains(
                (#[trigger] self.connected_peers@[i]).address,
            ) && !has_addr(self.disconnected_peers@, self.connected_peers@[i].address) by {
                let a2 = self.connected_peers@[i].address;
                assert(old(self).connected_peers@.contains(self.connected_peers@[i]));
                let j = choose|j: int|
                    0 <= j < old(self).connected_peers@.len() && old(self).connected_peers@[j]
                        == self.connected_peers@[i];
                assert(!old(self).connecting_peers@.contains(a2));
                assert(!has_addr(old(self).disconnected_peers@, a2));
                if a2 == address {
                    lemma_addr_index(self.connected_peers@, address, i);
                }
            }
        }
    }

    /// Replaces the quality block of the connected record at position
    /// `i`.
    fn set_quality(&mut self, i: usize, q: PeerQuality)
        requires
            old(self).wf(),
            i < old(self).spec_connected_seq().len(),
            ({
                let info = old(self).spec_connected_seq()[i as int];
                (PeerInfo { quality: q, ..info }).wf()
            }),
        ensures
            final(self).wf(),
            quality_update_rel(
                *old(self),
                *final(self),
                old(self).spec_connected_seq()[i as int].address,
                q,
            ),
    {
        let info = self.connected_peers[i];
        let new_info = PeerInfo {
            address: info.address,
            state: info.state,
            first_seen: info.first_seen,
            last_connected: info.last_connected,
            last_disconnected: info.last_disconnected,
            connection_count: info.connection_count,
            disconnection_count: info.disconnection_count,
            quality: q,
        };
        self.connected_peers.set(i, new_info);
        proof {
            let pre = old(self).connected_peers@;
            let post = self.connected_peers@;
            let address = pre[i as int].address;
            assert(post =~= pre.update(i as int, new_info));
            assert forall|k: int| 0 <= k < post.len() implies (#[trigger] post[k]).address
                == pre[k].address by {}
            assert(distinct_addrs(post)) by {
                assert forall|x: int, y: int|
                    0 <= x < y < post.len() implies (#[trigger] post[x]).address != (
                #[trigger] post[y]).address by {
                    assert(pre[x].address != pre[y].address);
                }
            }
            lemma_addr_index(post, address, i as int);
            lemma_addr_index(pre, address, i as int);
            assert forall|k: int|
                0 <= k < post.len() implies (#[trigger] post[k]).wf() && post[k].state
                == PeerState::Connected by {
                assert(pre[k].wf());
                if k != i as int {
                    assert(post[k] == pre[k]);
                }
            }
            assert forall|a2: PeerAddress| a2 != address implies (has_addr(post, a2) == has_addr(
                pre,
                a2,
            ) && (has_addr(pre, a2) ==> info_of(post, a2) == info_of(pre, a2))) by {
                if has_addr(pre, a2) {
                    let k = addr_index(pre, a2);
                    assert(k != i as int);
                    assert(post[k] == pre[k]);
                    lemma_addr_index(post, a2, k);
                }
                if has_addr(post, a2) {
                    let k = choose|k: int|
                        0 <= k < post.len() && (#[trigger] post[k]).address == a2;
                    assert(pre[k].address == a2);
                    lemma_addr_index(pre, a2, k);
                }
            }
            assert forall|k: int|
                0 <= k < post.len() implies !self.connecting_peers@.contains(
                (#[trigger] post[k]).address,
            ) && !has_addr(self.disconnected_peers@, post[k].address) by {
                assert(post[k].address == pre[k].address);
            }
        }
    }

    /// Updates the last-seen timestamp of the given connected peer to
    /// the present moment; an address that is not connected is left
    /// alone.
    pub fn update_last_seen(&mut self, addr: PeerAddress)
        requires
            old(self).wf(),
        ensures
            final(self).wf(),
            old(self).spec_connected(addr) ==> exists|t: i64|
                update_last_seen_rel(*old(self), *final(self), addr, t),
            !old(self).spec_connected(addr) ==> book_unchanged(*old(self), *final(self)),
    {
        let now = now_millis();
        self.update_last_seen_at(addr, now);
        proof {
            if old(self).spec_connected(addr) {
                assert(update_last_seen_rel(*old(self), *self, addr, now));
            }
        }
    }

    /// Updates the last-seen timestamp of the given connected peer to
    /// time `now`.
    pub fn update_last_seen_at(&mut self, addr: PeerAddress, now: i64)
        requires
            old(self).wf(),
        ensures
            final(self).wf(),
            old(self).spec_connected(addr) ==> quality_update_rel(
                *old(self),
                *final(self),
                addr,
                (PeerQuality {
                    last_seen: Option::Some(now),
                    ..old(self).spec_connected_info(addr).quality
                }),
            ),
            !old(self).spec_connected(addr) ==> book_unchanged(*old(self), *final(self)),
    {
        match find_index(&self.connected_peers, addr) {
            Some(i) => {
                proof {
                    lemma_addr_index(self.connected_peers@, addr, i as int);
                }
                let q = self.connected_peers[i].quality;
                let new_q = PeerQuality {
                    rtt_ms: q.rtt_ms,
                    expecting_pong: q.expecting_pong,
                    last_ping_sent: q.last_ping_sent,
                    failures: q.failures,
                    remaining_sync_blocks: q.remaining_sync_blocks,
                    last_seen: Some(now),
                };
                self.set_quality(i, new_q);
            },
            None => {},
        }
    }

    /// Records that a ping is being sent to the given peer now.
    pub fn sending_ping(&mut self, target: PeerAddress)
        requires
            old(self).wf(),
        ensures
            final(self).wf(),
            old(self).spec_connected(target) ==> exists|t: i64|
                sending_ping_rel(*old(self), *final(self), target, t),
            !old(self).spec_connected(target) ==> book_unchanged(*old(self), *final(self)),
    {
        let now = now_millis();
        self.sending_ping_at(target, now);
        proof {
            if old(self).spec_connected(target) {
                assert(sending_ping_rel(*old(self), *self, target, now));
            }
        }
    }

    /// Records that a ping was sent to the given peer at time `now`.
    pub fn sending_ping_at(&mut self, target: PeerAddress, now: i64)
        requires
            old(self).wf(),
        ensures
            final(self).wf(),
            old(self).spec_connected(target) ==> quality_update_rel(
                *old(self),
                *final(self),
                target,
                (PeerQuality {
                    last_ping_sent: Option::Some(now),
                    expecting_pong: true,
                    ..old(self).spec_connected_info(target).quality
                }),
            ),
            !old(self).spec_connected(target) ==> book_unchanged(*old(self), *final(self)),
    {
        match find_index(&self.connected_peers, target) {
            Some(i) => {
                proof {
                    lemma_addr_index(self.connected_peers@, target, i as int);
                }
                let q = self.connected_peers[i].quality;
                let new_q = PeerQuality {
                    rtt_ms: q.rtt_ms,
                    expecting_pong: true,
                    last_ping_sent: Some(now),
                    failures: q.failures,
                    remaining_sync_blocks: q.remaining_sync_blocks,
                    last_seen: q.last_seen,
                };
                self.set_quality(i, new_q);
            },
            None => {},
        }
    }

    /// Handles an incoming `Pong` message: an awaited pong yields a
    /// round-trip time, an unexpected one counts as a failure.
    pub fn received_pong(&mut self, source: PeerAddress)
        requires
            old(self).wf(),
        ensures
            final(self).wf(),
            old(self).spec_connected(source) ==> exists|t: i64|
                received_pong_rel(*old(self), *final(self), source, t),
            !old(self).spec_connected(source) ==> book_unchanged(*old(self), *final(self)),
    {
        let now = now_millis();
        self.received_pong_at(source, now);
        proof {
            if old(self).spec_connected(source) {
                assert(received_pong_rel(*old(self), *self, source, now));
            }
        }
    }

    /// Handles an incoming `Pong` message arriving at time `now`.
    pub fn received_pong_at(&mut self, source: PeerAddress, now: i64)
        requires
            old(self).wf(),
        ensures
            final(self).wf(),
            old(self).spec_connected(source) && old(
                self,
            ).spec_connected_info(source).quality.expecting_pong ==> quality_update_rel(
                *old(self),
                *final(self),
                source,
                (PeerQuality {
                    rtt_ms: rtt_millis(
                        now,
                        old(self).spec_connected_info(source).quality.last_ping_sent->0,
                    ),
                    expecting_pong: false,
                    ..old(self).spec_connected_info(source).quality
                }),
            ),
            old(self).spec_connected(source) && !old(
                self,
            ).spec_connected_info(source).quality.expecting_pong ==> quality_update_rel(
                *old(self),
                *final(self),
                source,
                (PeerQuality {
                    failures: sat_inc(old(self).spec_connected_info(source).quality.failures),
                    ..old(self).spec_connected_info(source).quality
                }),
            ),
            !old(self).spec_connected(source) ==> book_unchanged(*old(self), *final(self)),
    {
        match find_index(&self.connected_peers, source) {
            Some(i) => {
                proof {
                    lemma_addr_index(self.connected_peers@, source, i as int);
                    assert(self.connected_peers@[i as int].wf());
                }
                let q = self.connected_peers[i].quality;
                if q.expecting_pong {
                    let sent = match q.last_ping_sent {
                        Some(s) => s,
                        None => now,
                    };
                    let diff: i128 = (now as i128) - (sent as i128);
                    let rtt: u64 = if diff >= 0 {
                        diff as u64
                    } else {
                        0
                    };
                    let new_q = PeerQuality {
                        rtt_ms: rtt,
                        expecting_pong: false,
                        last_ping_sent: q.last_ping_sent,
                        failures: q.failures,
                        remaining_sync_blocks: q.remaining_sync_blocks,
                        last_seen: q.last_seen,
                    };
                    self.set_quality(i, new_q);
                } else {
                    let failures = if q.failures < u64::MAX {
                        q.failures + 1
                    } else {
                        q.failures
                    };
                    let new_q = PeerQuality {
                        rtt_ms: q.rtt_ms,
                        expecting_pong: q.expecting_pong,
                        last_ping_sent: q.last_ping_sent,
                        failures,
                        remaining_sync_blocks: q.remaining_sync_blocks,
                        last_seen: q.last_seen,
                    };
                    self.set_quality(i, new_q);
                }
            },
            None => {},
        }
    }

    /// Registers that the given number of blocks is expected as part of
    /// syncing with a peer.
    pub fn expecting_sync_blocks(&mut self, addr: PeerAddress, count: u16)
        requires
            old(self).wf(),
        ensures
            final(self).wf(),
            old(self).spec_connected(addr) ==> quality_update_rel(
                *old(self),
                *final(self),
                addr,
                (PeerQuality {
                    remaining_sync_blocks: count,
                    ..old(self).spec_connected_info(addr).quality
                }),
            ),
            !old(self).spec_connected(addr) ==> book_unchanged(*old(self), *final(self)),
    {
        match find_index(&self.connected_peers, addr) {
            Some(i) => {
                proof {
                    lemma_addr_index(self.connected_peers@, addr, i as int);
                }
                let q = self.connected_peers[i].quality;
                let new_q = PeerQuality {
                    rtt_ms: q.rtt_ms,
                    expecting_pong: q.expecting_pong,
                    last_ping_sent: q.last_ping_sent,
                    failures: q.failures,
                    remaining_sync_blocks: count,
                    last_seen: q.last_seen,
                };
                self.set_quality(i, new_q);
            },
            None => {},
        }
    }

    /// Registers the receipt of a sync block from a peer; returns
    /// `true` exactly when this receipt finished the sync round, or
    /// when the peer is not connected at all.
    pub fn got_sync_block(&mut self, addr: PeerAddress) -> (r: bool)
        requires
            old(self).wf(),
        ensures
            final(self).wf(),
            old(self).spec_connected(addr) ==> ({
                let oldq = old(self).spec_connected_info(addr).quality;
                &&& r == (oldq.remaining_sync_blocks == 1)
                &&& quality_update_rel(
                    *old(self),
                    *final(self),
                    addr,
                    (PeerQuality {
                        remaining_sync_blocks: (if oldq.remaining_sync_blocks > 0 {
                            (oldq.remaining_sync_blocks - 1) as u16
                        } else {
                            0u16
                        }),
                        ..oldq
                    }),
                )
            }),
            !old(self).spec_connected(addr) ==> r == true && book_unchanged(
                *old(self),
                *final(self),
            ),
    {
        match find_index(&self.connected_peers, addr) {
            Some(i) => {
                proof {
                    lemma_addr_index(self.connected_peers@, addr, i as int);
                }
                let q = self.connected_peers[i].quality;
                let remaining = q.remaining_sync_blocks;
                let new_q = PeerQuality {
                    rtt_ms: q.rtt_ms,
                    expecting_pong: q.expecting_pong,
                    last_ping_sent: q.last_ping_sent,
                    failures: q.failures,
                    remaining_sync_blocks: if remaining > 0 {
                        remaining - 1
                    } else {
                        0
                    },
                    last_seen: q.last_seen,
                };
                self.set_quality(i, new_q);
                remaining == 1
            },
            None => true,
        }
    }

    /// Checks whether the given peer is involved in a block syncing
    /// process.
    pub fn is_syncing_blocks(&self, addr: PeerAddress) -> (r: bool)
        requires
            self.wf(),
        ensures
            r == (self.spec_connected(addr) && self.spec_connected_info(
                addr,
            ).quality.remaining_sync_blocks != 0),
    {
        match find_index(&self.connected_peers, addr) {
            Some(i) => {
                proof {
                    lemma_addr_index(self.connected_peers@, addr, i as int);
                }
                self.connected_peers[i].quality.remaining_sync_blocks != 0
            },
            None => false,
        }
    }

    /// Returns the address of the most recently seen connected peer, to
    /// be used as a sync node, or `None` if nothing is connected.
    pub fn last_seen(&self) -> (r: Option<PeerAddress>)
        requires
            self.wf(),
        ensures
            r is None <==> self.spec_num_connected() == 0,
            r is Some ==> self.spec_connected(r->0) && forall|a2: PeerAddress|
                self.spec_connected(a2) ==> ts_le(
                    self.spec_connected_info(a2).quality.last_seen,
                    self.spec_connected_info(r->0).quality.last_seen,
                ),
    {
        let n = self.connected_peers.len();
        if n == 0 {
            return None;
        }
        let mut best: usize = 0;
        let mut i: usize = 1;
        while i < n
            invariant
                n == self.connected_peers@.len(),
                0 <= best < i <= n,
                forall|j: int|
                    0 <= j < i ==> ts_le(
                        (#[trigger] self.connected_peers@[j]).quality.last_seen,
                        self.connected_peers@[best as int].quality.last_seen,
                    ),
            decreases n - i,
        {
            let cur = self.connected_peers[i].quality.last_seen;
            let so_far = self.connected_peers[best].quality.last_seen;
            let better = match cur {
                Some(x) => match so_far {
                    Some(y) => x > y,
                    None => true,
                },
                None => false,
            };
            if better {
                best = i;
            }
            i = i + 1;
        }
        let addr = self.connected_peers[best].address;
        proof {
            lemma_addr_index(self.connected_peers@, addr, best as int);
            assert forall|a2: PeerAddress| self.spec_connected(a2) implies ts_le(
                self.spec_connected_info(a2).quality.last_seen,
                self.spec_connected_info(addr).quality.last_seen,
            ) by {
                let k = addr_index(self.connected_peers@, a2);
                assert(ts_le(
                    self.connected_peers@[k].quality.last_seen,
                    self.connected_peers@[best as int].quality.last_seen,
                ));
            }
        }
        Some(addr)
    }

    /// Adds the given address to the disconnected peers, if the book
    /// does not know it yet; a known address is left as it is.
    pub fn add_peer(&mut self, address: PeerAddress)
        requires
            old(self).wf(),
        ensures
            final(self).wf(),
            exists|t: i64| add_peer_rel(*old(self), *final(self), address, t),
    {
        let now = now_millis();
        self.add_peer_at(address, now);
    }

    /// Adds the given address as first discovered at time `now`.
    pub fn add_peer_at(&mut self, address: PeerAddress, now: i64)
        requires
            old(self).wf(),
        ensures
            final(self).wf(),
            add_peer_rel(*old(self), *final(self), address, now),
    {
        if self.is_connected(address) || self.is_disconnected(address) || self.is_connecting(
            address,
        ) {
            return ;
        }
        let info = PeerInfo::new(address, now);
        let ghost pre = self.disconnected_peers@;
        self.disconnected_peers.push(info);
        proof {
            lemma_push_new_info(pre, info);
            assert forall|i: int|
                0 <= i < self.connected_peers@.len() implies !self.connecting_peers@.contains(
                (#[trigger] self.connected_peers@[i]).address,
            ) && !has_addr(self.disconnected_peers@, self.connected_peers@[i].address) by {
                assert(self.connected_peers@[i].address != address);
            }
        }
    }
}

/// How `set_connecting` changes the book when it succeeds: the address
/// joins the handshakes under way and nothing else moves.
pub open spec fn set_connecting_rel(pre: PeerBook, post: PeerBook, address: PeerAddress) -> bool {
    &&& forall|a2: PeerAddress|
        post.spec_connecting(a2) == (pre.spec_connecting(a2) || a2 == address)
    &&& post.spec_num_connecting() == pre.spec_num_connecting() + (if pre.spec_connecting(
        address,
    ) {
        0int
    } else {
        1int
    })
    &&& post.spec_connected_seq() == pre.spec_connected_seq()
    &&& post.spec_disconnected_seq() == pre.spec_disconnected_seq()
}

/// How `set_connected` changes the book, `now` being the time read from
/// the clock. The effective listener address is resolved, its prior
/// record (connected, disconnected, or fresh) is marked connected, the
/// handshake entries are cleared, and no other peer is touched. A
/// duplicate call for a connected listener updates the existing record
/// without counting a new connection.
pub open spec fn set_connected_rel(
    pre: PeerBook,
    post: PeerBook,
    address: PeerAddress,
    listener: Option<PeerAddress>,
    now: i64,
) -> bool {
    let key = if listener is Some {
        listener->0
    } else {
        address
    };
    let base = if pre.spec_connected(key) {
        pre.spec_connected_info(key)
    } else if pre.spec_disconnected(key) {
        pre.spec_disconnected_info(key)
    } else {
        crate::peer_info::initial_info(key, now)
    };
    &&& post.spec_connected(key)
    &&& post.spec_connected_info(key) == (PeerInfo {
        state: PeerState::Connected,
        last_connected: Option::Some(now),
        connection_count: if pre.spec_connected(key) {
            base.connection_count
        } else {
            sat_inc(base.connection_count)
        },
        ..base
    })
    &&& !post.spec_disconnected(key)
    &&& forall|a2: PeerAddress|
        a2 != key ==> (post.spec_connected(a2) == pre.spec_connected(a2) && (pre.spec_connected(
            a2,
        ) ==> post.spec_connected_info(a2) == pre.spec_connected_info(a2)))
    &&& forall|a2: PeerAddress|
        a2 != key ==> (post.spec_disconnected(a2) == pre.spec_disconnected(a2) && (
        pre.spec_disconnected(a2) ==> post.spec_disconnected_info(a2)
            == pre.spec_disconnected_info(a2)))
    &&& forall|a2: PeerAddress|
        post.spec_connecting(a2) == (pre.spec_connecting(a2) && a2 != address && a2 != key)
    &&& post.spec_num_connected() == pre.spec_num_connected() + (if pre.spec_connected(key) {
        0int
    } else {
        1int
    })
}

/// How `set_disconnected` changes the book, `now` being the time read
/// from the clock. A connecting address just leaves the handshake; a
/// connected one moves to the disconnected peers with its disconnection
/// counted; a disconnected one is left alone; an unknown one is
/// recorded as a fresh disconnected peer.
pub open spec fn set_disconnected_rel(
    pre: PeerBook,
    post: PeerBook,
    address: PeerAddress,
    now: i64,
) -> bool {
    if pre.spec_connecting(address) {
        &&& forall|a2: PeerAddress|
            post.spec_connecting(a2) == (pre.spec_connecting(a2) && a2 != address)
        &&& post.spec_connected_seq() == pre.spec_connected_seq()
        &&& post.spec_disconnected_seq() == pre.spec_disconnected_seq()
    } else if pre.spec_connected(address) {
        let base = pre.spec_connected_info(address);
        &&& !post.spec_connected(address)
        &&& post.spec_disconnected(address)
        &&& post.spec_disconnected_info(address) == (PeerInfo {
            state: PeerState::Disconnected,
            last_disconnected: Option::Some(now),
            disconnection_count: sat_inc(base.disconnection_count),
            ..base
        })
        &&& forall|a2: PeerAddress|
            a2 != address ==> (post.spec_connected(a2) == pre.spec_connected(a2) && (
            pre.spec_connected(a2) ==> post.spec_connected_info(a2) == pre.spec_connected_info(
                a2,
            )))
        &&& forall|a2: PeerAddress|
            a2 != address ==> (post.spec_disconnected(a2) == pre.spec_disconnected(a2) && (
            pre.spec_disconnected(a2) ==> post.spec_disconnected_info(a2)
                == pre.spec_disconnected_info(a2)))
        &&& post.spec_connecting_seq() == pre.spec_connecting_seq()
        &&& post.spec_num_connected() == pre.spec_num_connected() - 1
    } else if pre.spec_disconnected(address) {
        &&& post.spec_connecting_seq() == pre.spec_connecting_seq()
        &&& post.spec_connected_seq() == pre.spec_connected_seq()
        &&& post.spec_disconnected_seq() == pre.spec_disconnected_seq()
    } else {
        &&& post.spec_connecting_seq() == pre.spec_connecting_seq()
        &&& post.spec_connected_seq() == pre.spec_connected_seq()
        &&& post.spec_disconnected(address)
        &&& post.spec_disconnected_info(address) == crate::peer_info::initial_info(address, now)
        &&& forall|a2: PeerAddress|
            a2 != address ==> (post.spec_disconnected(a2) == pre.spec_disconnected(a2) && (
            pre.spec_disconnected(a2) ==> post.spec_disconnected_info(a2)
                == pre.spec_disconnected_info(a2)))
    }
}

/// Law: in a well-formed book no collection names an address twice.
pub proof fn lemma_wf_distinct(book: PeerBook)
    requires
        book.wf(),
    ensures
        distinct_peer_addrs(book.spec_connecting_seq()),
        distinct_addrs(book.spec_connected_seq()),
        distinct_addrs(book.spec_disconnected_seq()),
{
}

/// Whether the two books hold the very same collections.
pub open spec fn book_unchanged(pre: PeerBook, post: PeerBook) -> bool {
    &&& post.spec_connecting_seq() == pre.spec_connecting_seq()
    &&& post.spec_connected_seq() == pre.spec_connected_seq()
    &&& post.spec_disconnected_seq() == pre.spec_disconnected_seq()
}

/// How a quality update changes the book: the quality block of one
/// connected peer is replaced and nothing else moves.
pub open spec fn quality_update_rel(
    pre: PeerBook,
    post: PeerBook,
    address: PeerAddress,
    q: PeerQuality,
) -> bool {
    &&& pre.spec_connected(address)
    &&& post.spec_connected(address)
    &&& post.spec_connected_info(address) == (PeerInfo {
        quality: q,
        ..pre.spec_connected_info(address)
    })
    &&& forall|a2: PeerAddress|
        a2 != address ==> (post.spec_connected(a2) == pre.spec_connected(a2) && (
        pre.spec_connected(a2) ==> post.spec_connected_info(a2) == pre.spec_connected_info(a2)))
    &&& post.spec_num_connected() == pre.spec_num_connected()
    &&& post.spec_connecting_seq() == pre.spec_connecting_seq()
    &&& post.spec_disconnected_seq() == pre.spec_disconnected_seq()
}

/// The round-trip time measured when the pong for a ping sent at `sent`
/// arrives at `now`; a clock gone backwards reads as zero.
pub open spec fn rtt_millis(now: i64, sent: i64) -> u64 {
    if now >= sent {
        (now - sent) as u64
    } else {
        0u64
    }
}

/// How `update_last_seen` changes the book when the address is
/// connected and the clock reads `t`.
pub open spec fn update_last_seen_rel(
    pre: PeerBook,
    post: PeerBook,
    addr: PeerAddress,
    t: i64,
) -> bool {
    quality_update_rel(
        pre,
        post,
        addr,
        (PeerQuality { last_seen: Option::Some(t), ..pre.spec_connected_info(addr).quality }),
    )
}

/// How `sending_ping` changes the book when the target is connected and
/// the clock reads `t`.
pub open spec fn sending_ping_rel(
    pre: PeerBook,
    post: PeerBook,
    target: PeerAddress,
    t: i64,
) -> bool {
    quality_update_rel(
        pre,
        post,
        target,
        (PeerQuality {
            last_ping_sent: Option::Some(t),
            expecting_pong: true,
            ..pre.spec_connected_info(target).quality
        }),
    )
}

/// How `received_pong` changes the book when the source is connected
/// and the clock reads `t`: an awaited pong yields a round-trip time,
/// an unexpected one counts as a failure.
pub open spec fn received_pong_rel(
    pre: PeerBook,
    post: PeerBook,
    source: PeerAddress,
    t: i64,
) -> bool {
    let oldq = pre.spec_connected_info(source).quality;
    if oldq.expecting_pong {
        quality_update_rel(
            pre,
            post,
            source,
            (PeerQuality {
                rtt_ms: rtt_millis(t, oldq.last_ping_sent->0),
                expecting_pong: false,
                ..oldq
            }),
        )
    } else {
        quality_update_rel(
            pre,
            post,
            source,
            (PeerQuality { failures: sat_inc(oldq.failures), ..oldq }),
        )
    }
}

/// How `add_peer` changes the book: a known address is left alone, an
/// unknown one is recorded as a fresh disconnected peer first seen at
/// time `now`.
pub open spec fn add_peer_rel(pre: PeerBook, post: PeerBook, address: PeerAddress, now: i64) -> bool {
    if pre.spec_connected(address) || pre.spec_disconnected(address) || pre.spec_connecting(
        address,
    ) {
        &&& post.spec_connecting_seq() == pre.spec_connecting_seq()
        &&& post.spec_connected_seq() == pre.spec_connected_seq()
        &&& post.spec_disconnected_seq() == pre.spec_disconnected_seq()
    } else {
        &&& post.spec_connecting_seq() == pre.spec_connecting_seq()
        &&& post.spec_connected_seq() == pre.spec_connected_seq()
        &&& post.spec_disconnected_seq() == pre.spec_disconnected_seq().push(
            crate::peer_info::initial_info(address, now),
        )
        &&& post.spec_disconnected(address)
        &&& post.spec_disconnected_info(address) == crate::peer_info::initial_info(address, now)
        &&& forall|a2: PeerAddress|
            a2 != address ==> (post.spec_disconnected(a2) == pre.spec_disconnected(a2) && (
            pre.spec_disconnected(a2) ==> post.spec_disconnected_info(a2)
                == pre.spec_disconnected_info(a2)))
    }
}

/// Pushing a record with a new address keeps the sequence well keyed
/// and leaves every other address as it was.
proof fn lemma_push_new_info(pre: Seq<PeerInfo>, info: PeerInfo)
    requires
        distinct_addrs(pre),
        !has_addr(pre, info.address),
    ensures
        distinct_addrs(pre.push(info)),
        has_addr(pre.push(info), info.address),
        info_of(pre.push(info), info.address) == info,
        forall|a2: PeerAddress|
            a2 != info.address ==> (has_addr(pre.push(info), a2) == has_addr(pre, a2) && (has_addr(
                pre,
                a2,
            ) ==> info_of(pre.push(info), a2) == info_of(pre, a2))),
{
    let post = pre.push(info);
    assert(post.len() == pre.len() + 1);
    assert(post[pre.len() as int] == info);
    assert forall|i: int| 0 <= i < pre.len() implies #[trigger] post[i] == pre[i] by {}
    assert(distinct_addrs(post)) by {
        assert forall|x: int, y: int|
            0 <= x < y < post.len() implies (#[trigger] post[x]).address != (
        #[trigger] post[y]).address by {
            if y == pre.len() {
                assert(post[x] == pre[x]);
                if pre[x].address == info.address {
                    lemma_addr_index(pre, info.address, x);
                }
            }
        }
    }
    lemma_addr_index(post, info.address, pre.len() as int);
    assert forall|a2: PeerAddress| a2 != info.address implies (has_addr(post, a2) == has_addr(
        pre,
        a2,
    ) && (has_addr(pre, a2) ==> info_of(post, a2) == info_of(pre, a2))) by {
        if has_addr(pre, a2) {
            let k = addr_index(pre, a2);
            assert(post[k] == pre[k]);
            lemma_addr_index(post, a2, k);
        }
        if has_addr(post, a2) {
            let k = choose|k: int| 0 <= k < post.len() && (#[trigger] post[k]).address == a2;
            assert(k < pre.len());
            lemma_addr_index(pre, a2, k);
        }
    }
}

/// Copies the records of a sequence into a fresh vector.
fn copy_infos(s: &Vec<PeerInfo>) -> (r: Vec<PeerInfo>)
    ensures
        r@ == s@,
{
    let n = s.len();
    let mut out: Vec<PeerInfo> = Vec::new();
    let mut i: usize = 0;
    while i < n
        invariant
            n == s@.len(),
            0 <= i <= n,
            out@ == s@.take(i as int),
        decreases n - i,
    {
        out.push(s[i]);
        proof {
            assert(s@.take(i + 1) =~= s@.take(i as int).push(s@[i as int]));
        }
        i = i + 1;
    }
    proof {
        assert(s@.take(n as int) =~= s@);
    }
    out
}

/// Finds the position of the record keyed by the given address.
fn find_index(s: &Vec<PeerInfo>, a: PeerAddress) -> (r: Option<usize>)
    ensures
        r is Some ==> 0 <= r->Some_0 < s@.len() && s@[r->Some_0 as int].address == a,
        r is None ==> !has_addr(s@, a),
{
    let n = s.len();
    let mut i: usize = 0;
    while i < n
        invariant
            n == s@.len(),
            0 <= i <= n,
            forall|j: int| 0 <= j < i ==> (#[trigger] s@[j]).address != a,
        decreases n - i,
    {
        if s[i].address == a {
            return Some(i);
        }
        i = i + 1;
    }
    None
}

/// Finds the position of the given address.
fn find_addr(s: &Vec<PeerAddress>, a: PeerAddress) -> (r: Option<usize>)
    ensures
        r is Some ==> 0 <= r->Some_0 < s@.len() && s@[r->Some_0 as int] == a,
        r is None ==> !s@.contains(a),
{
    let n = s.len();
    let mut i: usize = 0;
    while i < n
        invariant
            n == s@.len(),
            0 <= i <= n,
            forall|j: int| 0 <= j < i ==> #[trigger] s@[j] != a,
        decreases n - i,
    {
        if s[i] == a {
            return Some(i);
        }
        i = i + 1;
    }
    None
}

/// Takes the record keyed by the given address out of the sequence, if
/// it is there.
fn remove_by_addr(s: &mut Vec<PeerInfo>, a: PeerAddress) -> (r: Option<PeerInfo>)
    requires
        distinct_addrs(old(s)@),
    ensures
        distinct_addrs(final(s)@),
        r is Some <==> has_addr(old(s)@, a),
        r is Some ==> r->Some_0 == info_of(old(s)@, a) && r->Some_0.address == a,
        r is None ==> final(s)@ == old(s)@,
        !has_addr(final(s)@, a),
        forall|a2: PeerAddress|
            a2 != a ==> (has_addr(final(s)@, a2) == has_addr(old(s)@, a2) && (has_addr(
                old(s)@,
                a2,
            ) ==> info_of(final(s)@, a2) == info_of(old(s)@, a2))),
        final(s)@.len() == old(s)@.len() - (if has_addr(old(s)@, a) {
            1int
        } else {
            0int
        }),
        forall|i: int| 0 <= i < final(s)@.len() ==> old(s)@.contains(#[trigger] final(s)@[i]),
{
    match find_index(s, a) {
        Some(i) => {
            let info = s.remove(i);
            proof {
                lemma_addr_index(old(s)@, a, i as int);
                let pre = old(s)@;
                let post = s@;
                assert(post =~= pre.subrange(0, i as int) + pre.subrange(
                    i as int + 1,
                    pre.len() as int,
                ));
                assert forall|k: int| 0 <= k < post.len() implies pre.contains(
                    #[trigger] post[k],
                ) by {
                    if k < i {
                        assert(post[k] == pre[k]);
                    } else {
                        assert(post[k] == pre[k + 1]);
                    }
                }
                assert(distinct_addrs(post)) by {
                    assert forall|x: int, y: int|
                        0 <= x < y < post.len() implies (#[trigger] post[x]).address != (
                    #[trigger] post[y]).address by {
                        let px = if x < i { x } else { x + 1 };
                        let py = if y < i { y } else { y + 1 };
                        assert(post[x] == pre[px] && post[y] == pre[py]);
                    }
                }
                assert(!has_addr(post, a)) by {
                    if has_addr(post, a) {
                        let k = choose|k: int| 0 <= k < post.len() && (#[trigger] post[k]).address
                            == a;
                        let pk = if k < i { k } else { k + 1 };
                        assert(pre[pk].address == a);
                        lemma_addr_index(pre, a, pk);
                    }
                }
                assert forall|a2: PeerAddress| a2 != a implies (has_addr(post, a2) == has_addr(
                    pre,
                    a2,
                ) && (has_addr(pre, a2) ==> info_of(post, a2) == info_of(pre, a2))) by {
                    if has_addr(pre, a2) {
                        let k = addr_index(pre, a2);
                        assert(0 <= k < pre.len() && pre[k].address == a2);
                        assert(k != i);
                        let nk = if k < i { k } else { k - 1 };
                        assert(post[nk] == pre[k]);
                        lemma_addr_index(post, a2, nk);
                    }
                    if has_addr(post, a2) {
                        let k = choose|k: int| 0 <= k < post.len() && (#[trigger] post[k]).address
                            == a2;
                        let pk = if k < i { k } else { k + 1 };
                        assert(pre[pk].address == a2);
                        lemma_addr_index(pre, a2, pk);
                    }
                }
            }
            Some(info)
        },
        None => None,
    }
}

/// Takes the given address out of the sequence, if it is there.
fn remove_addr(s: &mut Vec<PeerAddress>, a: PeerAddress)
    requires
        distinct_peer_addrs(old(s)@),
    ensures
        distinct_peer_addrs(final(s)@),
        !final(s)@.contains(a),
        !old(s)@.contains(a) ==> final(s)@ == old(s)@,
        forall|a2: PeerAddress| a2 != a ==> final(s)@.contains(a2) == old(s)@.contains(a2),
        final(s)@.len() == old(s)@.len() - (if old(s)@.contains(a) {
            1int
        } else {
            0int
        }),
{
    match find_addr(s, a) {
        Some(i) => {
            s.remove(i);
            proof {
                let pre = old(s)@;
                let post = s@;
                assert(pre[i as int] == a);
                assert forall|k: int| 0 <= k < post.len() implies #[trigger] post[k] == (if k
                    < i as int {
                    pre[k]
                } else {
                    pre[k + 1]
                }) by {}
                assert(distinct_peer_addrs(post)) by {
                    assert forall|x: int, y: int|
                        0 <= x < y < post.len() implies #[trigger] post[x] != #[trigger] post[y] by {
                        let px = if x < i as int { x } else { x + 1 };
                        let py = if y < i as int { y } else { y + 1 };
                        assert(post[x] == pre[px] && post[y] == pre[py]);
                    }
                }
                assert(!post.contains(a)) by {
                    if post.contains(a) {
                        let k = choose|k: int| 0 <= k < post.len() && post[k] == a;
                        let pk = if k < i as int { k } else { k + 1 };
                        assert(pre[pk] == a);
                        assert(pk != i as int);
                        if pk < i as int {
                            assert(pre[pk] != pre[i as int]);
                        } else {
                            assert(pre[i as int] != pre[pk]);
                        }
                    }
                }
                assert forall|a2: PeerAddress| a2 != a implies post.contains(a2) == pre.contains(
                    a2,
                ) by {
                    if pre.contains(a2) {
                        let k = choose|k: int| 0 <= k < pre.len() && pre[k] == a2;
                        assert(k != i as int);
                        let nk = if k < i as int { k } else { k - 1 };
                        assert(post[nk] == pre[k]);
                    }
                    if post.contains(a2) {
                        let k = choose|k: int| 0 <= k < post.len() && post[k] == a2;
                        let pk = if k < i as int { k } else { k + 1 };
                        assert(pre[pk] == a2);
                    }
                }
            }
        },
        None => {},
    }
}


/// How `got_sync_block` changes the book when the address is connected:
/// the peer's owed-block counter goes down by one and nothing else
/// moves.
pub open spec fn got_sync_block_rel(pre: PeerBook, post: PeerBook, addr: PeerAddress) -> bool {
    let oldq = pre.spec_connected_info(addr).quality;
    &&& pre.spec_connected(addr)
    &&& quality_update_rel(
        pre,
        post,
        addr,
        (PeerQuality {
            remaining_sync_blocks: (if oldq.remaining_sync_blocks > 0 {
                (oldq.remaining_sync_blocks - 1) as u16
            } else {
                0u16
            }),
            ..oldq
        }),
    )
}

/// Law: in a well-formed book a connected listener address is in
/// neither the connecting nor the disconnected collection, so an
/// address is never connected and anything else at once. (A re-dialed
/// address may be connecting and disconnected at the same time; that
/// overlap is the one the design allows.)
pub proof fn lemma_connected_exclusive(book: PeerBook, a: PeerAddress)
    requires
        book.wf(),
        book.spec_connected(a),
    ensures
        !book.spec_connecting(a),
        !book.spec_disconnected(a),
{
    let k = addr_index(book.connected_peers@, a);
    assert(0 <= k < book.connected_peers@.len() && book.connected_peers@[k].address == a);
    assert(!book.connecting_peers@.contains(book.connected_peers@[k].address));
    assert(!has_addr(book.disconnected_peers@, book.connected_peers@[k].address));
}

/// Law: marking a peer connecting, then connected, then disconnected
/// leaves it disconnected only, with its disconnections at least its
/// connections and at least one connection on record.
pub proof fn lemma_connect_cycle(
    b0: PeerBook,
    b1: PeerBook,
    b2: PeerBook,
    b3: PeerBook,
    a: PeerAddress,
    t2: i64,
    t3: i64,
)
    requires
        b0.wf(),
        b1.wf(),
        b2.wf(),
        b3.wf(),
        !b0.spec_connected(a),
        set_connecting_rel(b0, b1, a),
        set_connected_rel(b1, b2, a, Option::None::<PeerAddress>, t2),
        set_disconnected_rel(b2, b3, a, t3),
    ensures
        !b3.spec_connecting(a),
        !b3.spec_connected(a),
        b3.spec_disconnected(a),
        b3.spec_disconnected_info(a).disconnection_count
            >= b3.spec_disconnected_info(a).connection_count >= 1,
{
    assert(b1.spec_connected(a) == b0.spec_connected(a));
    assert(!b1.spec_connected(a));
    let base = if b1.spec_disconnected(a) {
        b1.spec_disconnected_info(a)
    } else {
        crate::peer_info::initial_info(a, t2)
    };
    assert(base.wf()) by {
        if b1.spec_disconnected(a) {
            let k = addr_index(b1.disconnected_peers@, a);
            assert(b1.disconnected_peers@[k].wf());
        }
    }
    assert(base.connection_count == base.disconnection_count) by {
        if b1.spec_disconnected(a) {
            let k = addr_index(b1.disconnected_peers@, a);
            assert(b1.disconnected_peers@[k].wf());
            assert(b1.disconnected_peers@[k].state != PeerState::Connected
                && b1.disconnected_peers@[k].state != PeerState::Connecting);
        }
    }
    let c2 = b2.spec_connected_info(a);
    assert(c2.connection_count == sat_inc(base.connection_count));
    assert(c2.disconnection_count == base.disconnection_count);
    assert(!b2.spec_connecting(a));
    assert(b2.spec_connected(a));
    let d3 = b3.spec_disconnected_info(a);
    assert(d3.disconnection_count == sat_inc(c2.disconnection_count));
    assert(d3.connection_count == c2.connection_count);
    assert(!b3.spec_connected(a));
    assert(!b3.spec_connecting(a)) by {
        assert(b3.spec_connecting_seq() == b2.spec_connecting_seq());
    }
}

/// Law: a sync session against one peer ends exactly when every
/// requested block arrived. After `expecting_sync_blocks` set the
/// counter to `n`, a run of `k <= n` block receipts leaves `n - k`
/// blocks owed, and the counter reads zero exactly when `k == n`.
pub proof fn lemma_sync_session(books: Seq<PeerBook>, addr: PeerAddress, n: u16)
    requires
        books.len() >= 1,
        books[0].spec_connected(addr),
        books[0].spec_connected_info(addr).quality.remaining_sync_blocks == n,
        books.len() - 1 <= n,
        forall|i: int|
            0 <= i < books.len() - 1 ==> got_sync_block_rel(#[trigger] books[i], books[i + 1], addr),
    ensures
        books.last().spec_connected(addr),
        books.last().spec_connected_info(addr).quality.remaining_sync_blocks == n - (books.len()
            - 1),
        (books.last().spec_connected_info(addr).quality.remaining_sync_blocks == 0) <==> (
        books.len() - 1 == n),
    decreases books.len(),
{
    if books.len() == 1 {
        assert(books.last() == books[0]);
    } else {
        let prefix = books.drop_last();
        assert(prefix.len() == books.len() - 1);
        assert forall|i: int|
            0 <= i < prefix.len() - 1 implies got_sync_block_rel(
            #[trigger] prefix[i],
            prefix[i + 1],
            addr,
        ) by {
            assert(prefix[i] == books[i] && prefix[i + 1] == books[i + 1]);
        }
        assert(prefix[0] == books[0]);
        lemma_sync_session(prefix, addr, n);
        let k = books.len() - 2;
        assert(got_sync_block_rel(books[k], books[k + 1], addr));
        assert(prefix.last() == books[k]);
        assert(books[k].spec_connected_info(addr).quality.remaining_sync_blocks == n - k);
        assert(n - k > 0);
        assert(books.last() == books[k + 1]);
    }
}


// ---------------------------------------------------------------------
// Persistence: the book's byte format, and its round trip.
// ---------------------------------------------------------------------

/// The nine bytes of an optional timestamp: a presence byte, then the
/// value, little-endian.
pub open spec fn opt_i64_bytes(o: Option<i64>) -> Seq<u8> {
    match o {
        Option::None => seq![0u8] + crate::codec::u64_le(0),
        Option::Some(x) => seq![1u8] + crate::codec::u64_le(x as u64),
    }
}

/// The byte standing for each connection state.
pub open spec fn state_byte(s: PeerState) -> u8 {
    match s {
        PeerState::NeverConnected => 0,
        PeerState::Connecting => 1,
        PeerState::Connected => 2,
        PeerState::Disconnected => 3,
    }
}

/// The 99 bytes of one peer record: the address, the state, the four
/// timestamps, the two counters, and the quality block.
pub open spec fn info_bytes(p: PeerInfo) -> Seq<u8> {
    crate::codec::addr_bytes(p.address) + seq![state_byte(p.state)] + opt_i64_bytes(p.first_seen)
        + opt_i64_bytes(p.last_connected) + opt_i64_bytes(p.last_disconnected)
        + crate::codec::u64_le(p.connection_count) + crate::codec::u64_le(p.disconnection_count)
        + crate::codec::u64_le(p.quality.rtt_ms) + seq![
        if p.quality.expecting_pong {
            1u8
        } else {
            0u8
        },
    ] + opt_i64_bytes(p.quality.last_ping_sent) + crate::codec::u64_le(p.quality.failures)
        + crate::codec::u16_le(p.quality.remaining_sync_blocks) + opt_i64_bytes(
        p.quality.last_seen,
    )
}

/// The concatenation of a sequence of peer records.
pub open spec fn cat_infos(s: Seq<PeerInfo>) -> Seq<u8>
    decreases s.len(),
{
    if s.len() == 0 {
        Seq::empty()
    } else {
        cat_infos(s.drop_last()) + info_bytes(s.last())
    }
}

/// Whether the book is small enough for its counts to travel as
/// `u32`s.
pub open spec fn savable(book: PeerBook) -> bool {
    &&& book.spec_num_connecting() <= u32::MAX
    &&& book.spec_num_connected() <= u32::MAX
    &&& book.spec_num_disconnected() <= u32::MAX
}

/// The serialized peer book: the three counts, then the connecting
/// addresses, then the connected records, then the disconnected
/// records, each collection in order.
pub open spec fn spec_saved(book: PeerBook) -> Seq<u8> {
    crate::codec::u32_le(book.spec_num_connecting() as u32) + crate::codec::u32_le(
        book.spec_num_connected() as u32,
    ) + crate::codec::u32_le(book.spec_num_disconnected() as u32) + crate::codec::cat_addrs(
        book.spec_connecting_seq(),
    ) + cat_infos(book.spec_connected_seq()) + cat_infos(book.spec_disconnected_seq())
}

/// A record always takes exactly its 99 bytes.
pub proof fn lemma_info_len(p: PeerInfo)
    ensures
        info_bytes(p).len() == 99,
{
    assert(opt_i64_bytes(p.first_seen).len() == 9);
    assert(opt_i64_bytes(p.last_connected).len() == 9);
    assert(opt_i64_bytes(p.last_disconnected).len() == 9);
    assert(opt_i64_bytes(p.quality.last_ping_sent).len() == 9);
    assert(opt_i64_bytes(p.quality.last_seen).len() == 9);
}

/// Concatenated records take 99 bytes each.
pub proof fn lemma_cat_infos_len(s: Seq<PeerInfo>)
    ensures
        cat_infos(s).len() == 99 * s.len(),
    decreases s.len(),
{
    if s.len() > 0 {
        lemma_cat_infos_len(s.drop_last());
        lemma_info_len(s.last());
    }
}

/// One more record extends the concatenation of a prefix by that
/// record.
proof fn lemma_cat_infos_take_succ(s: Seq<PeerInfo>, i: int)
    requires
        0 <= i < s.len(),
    ensures
        cat_infos(s.take(i + 1)) == cat_infos(s.take(i)) + info_bytes(s[i]),
{
    assert(s.take(i + 1).drop_last() =~= s.take(i));
    assert(s.take(i + 1).last() == s[i]);
}

/// Where each field of a record stands in its 99 bytes.
proof fn lemma_info_fields(p: PeerInfo)
    ensures
        info_bytes(p).len() == 99,
        info_bytes(p).subrange(0, 16) == crate::codec::u128_le(p.address.ip),
        info_bytes(p).subrange(16, 18) == crate::codec::u16_le(p.address.port),
        info_bytes(p)[18] == state_byte(p.state),
        info_bytes(p).subrange(19, 28) == opt_i64_bytes(p.first_seen),
        info_bytes(p).subrange(28, 37) == opt_i64_bytes(p.last_connected),
        info_bytes(p).subrange(37, 46) == opt_i64_bytes(p.last_disconnected),
        info_bytes(p).subrange(46, 54) == crate::codec::u64_le(p.connection_count),
        info_bytes(p).subrange(54, 62) == crate::codec::u64_le(p.disconnection_count),
        info_bytes(p).subrange(62, 70) == crate::codec::u64_le(p.quality.rtt_ms),
        info_bytes(p)[70] == (if p.quality.expecting_pong {
            1u8
        } else {
            0u8
        }),
        info_bytes(p).subrange(71, 80) == opt_i64_bytes(p.quality.last_ping_sent),
        info_bytes(p).subrange(80, 88) == crate::codec::u64_le(p.quality.failures),
        info_bytes(p).subrange(88, 90) == crate::codec::u16_le(
            p.quality.remaining_sync_blocks,
        ),
        info_bytes(p).subrange(90, 99) == opt_i64_bytes(p.quality.last_seen),
{
    lemma_info_len(p);
    assert(opt_i64_bytes(p.first_seen).len() == 9);
    assert(opt_i64_bytes(p.last_connected).len() == 9);
    assert(opt_i64_bytes(p.last_disconnected).len() == 9);
    assert(opt_i64_bytes(p.quality.last_ping_sent).len() == 9);
    assert(opt_i64_bytes(p.quality.last_seen).len() == 9);
    assert(info_bytes(p).subrange(0, 16) =~= crate::codec::u128_le(p.address.ip));
    assert(info_bytes(p).subrange(16, 18) =~= crate::codec::u16_le(p.address.port));
    assert(info_bytes(p).subrange(19, 28) =~= opt_i64_bytes(p.first_seen));
    assert(info_bytes(p).subrange(28, 37) =~= opt_i64_bytes(p.last_connected));
    assert(info_bytes(p).subrange(37, 46) =~= opt_i64_bytes(p.last_disconnected));
    assert(info_bytes(p).subrange(46, 54) =~= crate::codec::u64_le(p.connection_count));
    assert(info_bytes(p).subrange(54, 62) =~= crate::codec::u64_le(p.disconnection_count));
    assert(info_bytes(p).subrange(62, 70) =~= crate::codec::u64_le(p.quality.rtt_ms));
    assert(info_bytes(p).subrange(71, 80) =~= opt_i64_bytes(p.quality.last_ping_sent));
    assert(info_bytes(p).subrange(80, 88) =~= crate::codec::u64_le(p.quality.failures));
    assert(info_bytes(p).subrange(88, 90) =~= crate::codec::u16_le(
        p.quality.remaining_sync_blocks,
    ));
    assert(info_bytes(p).subrange(90, 99) =~= opt_i64_bytes(p.quality.last_seen));
}

/// Equal optional-timestamp bytes mean equal timestamps.
proof fn lemma_opt_i64_inj(o1: Option<i64>, o2: Option<i64>)
    requires
        opt_i64_bytes(o1) == opt_i64_bytes(o2),
    ensures
        o1 == o2,
{
    assert(opt_i64_bytes(o1)[0] == opt_i64_bytes(o2)[0]);
    match (o1, o2) {
        (Option::Some(x), Option::Some(y)) => {
            crate::codec::lemma_seq_cancel(
                seq![1u8],
                crate::codec::u64_le(x as u64),
                seq![1u8],
                crate::codec::u64_le(y as u64),
            );
            crate::codec::lemma_u64_le_injective(x as u64, y as u64);
            assert(x as u64 == y as u64 ==> x == y) by (bit_vector);
        },
        (Option::None, Option::Some(y)) => {
            assert(opt_i64_bytes(o1)[0] == 0u8);
            assert(opt_i64_bytes(o2)[0] == 1u8);
        },
        (Option::Some(x), Option::None) => {
            assert(opt_i64_bytes(o1)[0] == 1u8);
            assert(opt_i64_bytes(o2)[0] == 0u8);
        },
        (Option::None, Option::None) => {},
    }
}

/// Equal record bytes mean equal records.
proof fn lemma_info_bytes_inj(p1: PeerInfo, p2: PeerInfo)
    requires
        info_bytes(p1) == info_bytes(p2),
    ensures
        p1 == p2,
{
    lemma_info_fields(p1);
    lemma_info_fields(p2);
    crate::codec::lemma_u128_le_injective(p1.address.ip, p2.address.ip);
    crate::codec::lemma_u16_le_injective(p1.address.port, p2.address.port);
    assert(state_byte(p1.state) == state_byte(p2.state));
    assert(p1.state == p2.state);
    lemma_opt_i64_inj(p1.first_seen, p2.first_seen);
    lemma_opt_i64_inj(p1.last_connected, p2.last_connected);
    lemma_opt_i64_inj(p1.last_disconnected, p2.last_disconnected);
    crate::codec::lemma_u64_le_injective(p1.connection_count, p2.connection_count);
    crate::codec::lemma_u64_le_injective(p1.disconnection_count, p2.disconnection_count);
    crate::codec::lemma_u64_le_injective(p1.quality.rtt_ms, p2.quality.rtt_ms);
    assert(p1.quality.expecting_pong == p2.quality.expecting_pong);
    lemma_opt_i64_inj(p1.quality.last_ping_sent, p2.quality.last_ping_sent);
    crate::codec::lemma_u64_le_injective(p1.quality.failures, p2.quality.failures);
    crate::codec::lemma_u16_le_injective(
        p1.quality.remaining_sync_blocks,
        p2.quality.remaining_sync_blocks,
    );
    lemma_opt_i64_inj(p1.quality.last_seen, p2.quality.last_seen);
    assert(p1.address == p2.address);
    assert(p1.quality == p2.quality);
}

/// A concatenation of records pins each record's bytes at its fixed
/// place.
#[verifier::rlimit(60)]
proof fn lemma_cat_infos_slice(s: Seq<PeerInfo>, region: Seq<u8>)
    requires
        cat_infos(s) == region,
    ensures
        region.len() == 99 * s.len(),
        forall|j: int|
            0 <= j < s.len() ==> info_bytes(#[trigger] s[j]) == region.subrange(
                99 * j,
                99 * j + 99,
            ),
    decreases s.len(),
{
    lemma_cat_infos_len(s);
    if s.len() > 0 {
        let n = s.len() as int;
        lemma_cat_infos_len(s.drop_last());
        lemma_info_len(s.last());
        assert(region =~= region.subrange(0, 99 * (n - 1)) + region.subrange(
            99 * (n - 1),
            99 * n,
        ));
        crate::codec::lemma_seq_cancel(
            cat_infos(s.drop_last()),
            info_bytes(s.last()),
            region.subrange(0, 99 * (n - 1)),
            region.subrange(99 * (n - 1), 99 * n),
        );
        lemma_cat_infos_slice(s.drop_last(), region.subrange(0, 99 * (n - 1)));
        assert forall|j: int|
            0 <= j < s.len() implies info_bytes(#[trigger] s[j]) == region.subrange(
            99 * j,
            99 * j + 99,
        ) by {
            if j < n - 1 {
                assert(s.drop_last()[j] == s[j]);
                assert(region.subrange(0, 99 * (n - 1)).subrange(99 * j, 99 * j + 99)
                    =~= region.subrange(99 * j, 99 * j + 99));
            } else {
                assert(s[j] == s.last());
            }
        }
    }
}

/// A concatenation of addresses pins each address's bytes at its fixed
/// place.
proof fn lemma_cat_addrs_slice(s: Seq<PeerAddress>, region: Seq<u8>)
    requires
        crate::codec::cat_addrs(s) == region,
    ensures
        region.len() == 18 * s.len(),
        forall|j: int|
            0 <= j < s.len() ==> crate::codec::addr_bytes(#[trigger] s[j]) == region.subrange(
                18 * j,
                18 * j + 18,
            ),
    decreases s.len(),
{
    crate::codec::lemma_cat_addrs_len(s);
    if s.len() > 0 {
        let n = s.len() as int;
        crate::codec::lemma_cat_addrs_len(s.drop_last());
        assert(region =~= region.subrange(0, 18 * (n - 1)) + region.subrange(
            18 * (n - 1),
            18 * n,
        ));
        crate::codec::lemma_seq_cancel(
            crate::codec::cat_addrs(s.drop_last()),
            crate::codec::addr_bytes(s.last()),
            region.subrange(0, 18 * (n - 1)),
            region.subrange(18 * (n - 1), 18 * n),
        );
        lemma_cat_addrs_slice(s.drop_last(), region.subrange(0, 18 * (n - 1)));
        assert forall|j: int|
            0 <= j < s.len() implies crate::codec::addr_bytes(#[trigger] s[j]) == region.subrange(
            18 * j,
            18 * j + 18,
        ) by {
            if j < n - 1 {
                assert(s.drop_last()[j] == s[j]);
                assert(region.subrange(0, 18 * (n - 1)).subrange(18 * j, 18 * j + 18)
                    =~= region.subrange(18 * j, 18 * j + 18));
            } else {
                assert(s[j] == s.last());
            }
        }
    }
}

/// A saved image pins everything: the three counts sit in the header,
/// and every address and record sits at its fixed offset.
#[verifier::rlimit(60)]
proof fn lemma_saved_shape(b0: PeerBook, bytes: Seq<u8>)
    requires
        savable(b0),
        spec_saved(b0) == bytes,
    ensures
        bytes.len() == 12 + 18 * b0.spec_num_connecting() + 99 * b0.spec_num_connected() + 99
            * b0.spec_num_disconnected(),
        crate::codec::u32_le(b0.spec_num_connecting() as u32) == bytes.subrange(0, 4),
        crate::codec::u32_le(b0.spec_num_connected() as u32) == bytes.subrange(4, 8),
        crate::codec::u32_le(b0.spec_num_disconnected() as u32) == bytes.subrange(8, 12),
        crate::codec::cat_addrs(b0.spec_connecting_seq()) == bytes.subrange(
            12,
            12 + 18 * (b0.spec_num_connecting() as int),
        ),
        cat_infos(b0.spec_connected_seq()) == bytes.subrange(
            12 + 18 * (b0.spec_num_connecting() as int),
            12 + 18 * (b0.spec_num_connecting() as int) + 99 * (b0.spec_num_connected() as int),
        ),
        cat_infos(b0.spec_disconnected_seq()) == bytes.subrange(
            12 + 18 * (b0.spec_num_connecting() as int) + 99 * (b0.spec_num_connected() as int),
            bytes.len() as int,
        ),
        forall|j: int|
            0 <= j < b0.spec_num_connecting() ==> crate::codec::addr_bytes(
                #[trigger] b0.spec_connecting_seq()[j],
            ) == bytes.subrange(12 + 18 * j, 12 + 18 * j + 18),
        forall|j: int|
            0 <= j < b0.spec_num_connected() ==> info_bytes(
                #[trigger] b0.spec_connected_seq()[j],
            ) == bytes.subrange(
                12 + 18 * b0.spec_num_connecting() + 99 * j,
                12 + 18 * b0.spec_num_connecting() + 99 * j + 99,
            ),
        forall|j: int|
            0 <= j < b0.spec_num_disconnected() ==> info_bytes(
                #[trigger] b0.spec_disconnected_seq()[j],
            ) == bytes.subrange(
                12 + 18 * b0.spec_num_connecting() + 99 * b0.spec_num_connected() + 99 * j,
                12 + 18 * b0.spec_num_connecting() + 99 * b0.spec_num_connected() + 99 * j + 99,
            ),
{
    let c1 = b0.spec_num_connecting() as int;
    let c2 = b0.spec_num_connected() as int;
    let c3 = b0.spec_num_disconnected() as int;
    let a0 = 12 + 18 * c1;
    let b1 = a0 + 99 * c2;
    let total = b1 + 99 * c3;
    crate::codec::lemma_cat_addrs_len(b0.spec_connecting_seq());
    lemma_cat_infos_len(b0.spec_connected_seq());
    lemma_cat_infos_len(b0.spec_disconnected_seq());
    assert(bytes.len() == total);
    assert(bytes =~= bytes.subrange(0, 4) + bytes.subrange(4, 8) + bytes.subrange(8, 12)
        + bytes.subrange(12, a0) + bytes.subrange(a0, b1) + bytes.subrange(b1, total));
    let h1 = crate::codec::u32_le(b0.spec_num_connecting() as u32);
    let h2 = crate::codec::u32_le(b0.spec_num_connected() as u32);
    let h3 = crate::codec::u32_le(b0.spec_num_disconnected() as u32);
    let s1 = crate::codec::cat_addrs(b0.spec_connecting_seq());
    let s2 = cat_infos(b0.spec_connected_seq());
    let s3 = cat_infos(b0.spec_disconnected_seq());
    assert(h1 + h2 + h3 + s1 + s2 + s3 =~= h1 + (h2 + h3 + s1 + s2 + s3));
    assert(bytes =~= bytes.subrange(0, 4) + bytes.subrange(4, total));
    crate::codec::lemma_seq_cancel(
        h1,
        h2 + h3 + s1 + s2 + s3,
        bytes.subrange(0, 4),
        bytes.subrange(4, total),
    );
    assert(h2 + h3 + s1 + s2 + s3 =~= h2 + (h3 + s1 + s2 + s3));
    assert(bytes.subrange(4, total) =~= bytes.subrange(4, 8) + bytes.subrange(8, total));
    crate::codec::lemma_seq_cancel(
        h2,
        h3 + s1 + s2 + s3,
        bytes.subrange(4, 8),
        bytes.subrange(8, total),
    );
    assert(h3 + s1 + s2 + s3 =~= h3 + (s1 + s2 + s3));
    assert(bytes.subrange(8, total) =~= bytes.subrange(8, 12) + bytes.subrange(12, total));
    crate::codec::lemma_seq_cancel(
        h3,
        s1 + s2 + s3,
        bytes.subrange(8, 12),
        bytes.subrange(12, total),
    );
    assert(s1 + s2 + s3 =~= s1 + (s2 + s3));
    assert(bytes.subrange(12, total) =~= bytes.subrange(12, a0) + bytes.subrange(a0, total));
    crate::codec::lemma_seq_cancel(
        s1,
        s2 + s3,
        bytes.subrange(12, a0),
        bytes.subrange(a0, total),
    );
    assert(bytes.subrange(a0, total) =~= bytes.subrange(a0, b1) + bytes.subrange(b1, total));
    crate::codec::lemma_seq_cancel(s2, s3, bytes.subrange(a0, b1), bytes.subrange(b1, total));
    lemma_cat_addrs_slice(b0.spec_connecting_seq(), bytes.subrange(12, a0));
    lemma_cat_infos_slice(b0.spec_connected_seq(), bytes.subrange(a0, b1));
    lemma_cat_infos_slice(b0.spec_disconnected_seq(), bytes.subrange(b1, total));
    assert forall|j: int|
        0 <= j < c1 implies crate::codec::addr_bytes(#[trigger] b0.spec_connecting_seq()[j])
        == bytes.subrange(12 + 18 * j, 12 + 18 * j + 18) by {
        assert(bytes.subrange(12, a0).subrange(18 * j, 18 * j + 18) =~= bytes.subrange(
            12 + 18 * j,
            12 + 18 * j + 18,
        ));
    }
    assert forall|j: int|
        0 <= j < c2 implies info_bytes(#[trigger] b0.spec_connected_seq()[j]) == bytes.subrange(
        a0 + 99 * j,
        a0 + 99 * j + 99,
    ) by {
        assert(bytes.subrange(a0, b1).subrange(99 * j, 99 * j + 99) =~= bytes.subrange(
            a0 + 99 * j,
            a0 + 99 * j + 99,
        ));
    }
    assert forall|j: int|
        0 <= j < c3 implies info_bytes(#[trigger] b0.spec_disconnected_seq()[j])
        == bytes.subrange(b1 + 99 * j, b1 + 99 * j + 99) by {
        assert(bytes.subrange(b1, total).subrange(99 * j, 99 * j + 99) =~= bytes.subrange(
            b1 + 99 * j,
            b1 + 99 * j + 99,
        ));
    }
}

/// Law: the saved image determines the book. Two savable books with
/// the same serialization hold the very same three collections; with
/// `load`'s contract this is the persistence round trip: deserializing
/// a saved book restores its collections exactly.
#[verifier::rlimit(60)]
pub proof fn lemma_saved_injective(b1: PeerBook, b2: PeerBook)
    requires
        savable(b1),
        savable(b2),
        spec_saved(b1) == spec_saved(b2),
    ensures
        b1.spec_connecting_seq() == b2.spec_connecting_seq(),
        b1.spec_connected_seq() == b2.spec_connected_seq(),
        b1.spec_disconnected_seq() == b2.spec_disconnected_seq(),
{
    let bytes = spec_saved(b1);
    lemma_saved_shape(b1, bytes);
    lemma_saved_shape(b2, bytes);
    crate::codec::lemma_u32_le_injective(
        b1.spec_num_connecting() as u32,
        b2.spec_num_connecting() as u32,
    );
    crate::codec::lemma_u32_le_injective(
        b1.spec_num_connected() as u32,
        b2.spec_num_connected() as u32,
    );
    crate::codec::lemma_u32_le_injective(
        b1.spec_num_disconnected() as u32,
        b2.spec_num_disconnected() as u32,
    );
    assert(b1.spec_num_connecting() == b2.spec_num_connecting());
    assert(b1.spec_num_connected() == b2.spec_num_connected());
    assert(b1.spec_num_disconnected() == b2.spec_num_disconnected());
    assert forall|j: int|
        0 <= j < b1.spec_connecting_seq().len() implies #[trigger] b1.spec_connecting_seq()[j]
        == b2.spec_connecting_seq()[j] by {
        crate::codec::lemma_seq_cancel(
            crate::codec::u128_le(b1.spec_connecting_seq()[j].ip),
            crate::codec::u16_le(b1.spec_connecting_seq()[j].port),
            crate::codec::u128_le(b2.spec_connecting_seq()[j].ip),
            crate::codec::u16_le(b2.spec_connecting_seq()[j].port),
        );
        crate::codec::lemma_u128_le_injective(
            b1.spec_connecting_seq()[j].ip,
            b2.spec_connecting_seq()[j].ip,
        );
        crate::codec::lemma_u16_le_injective(
            b1.spec_connecting_seq()[j].port,
            b2.spec_connecting_seq()[j].port,
        );
    }
    assert(b1.spec_connecting_seq() =~= b2.spec_connecting_seq());
    assert forall|j: int|
        0 <= j < b1.spec_connected_seq().len() implies #[trigger] b1.spec_connected_seq()[j]
        == b2.spec_connected_seq()[j] by {
        lemma_info_bytes_inj(b1.spec_connected_seq()[j], b2.spec_connected_seq()[j]);
    }
    assert(b1.spec_connected_seq() =~= b2.spec_connected_seq());
    assert forall|j: int|
        0 <= j < b1.spec_disconnected_seq().len() implies #[trigger] b1.spec_disconnected_seq()[j]
        == b2.spec_disconnected_seq()[j] by {
        lemma_info_bytes_inj(b1.spec_disconnected_seq()[j], b2.spec_disconnected_seq()[j]);
    }
    assert(b1.spec_disconnected_seq() =~= b2.spec_disconnected_seq());
}

/// Appends the nine bytes of an optional timestamp.
fn write_opt_i64(out: &mut Vec<u8>, o: Option<i64>)
    ensures
        final(out)@ == old(out)@ + opt_i64_bytes(o),
{
    match o {
        Option::None => {
            out.push(0);
            crate::codec::write_u64_le(out, 0);
        },
        Option::Some(x) => {
            out.push(1);
            crate::codec::write_u64_le(out, x as u64);
        },
    }
    proof {
        assert(out@ =~= old(out)@ + opt_i64_bytes(o));
    }
}

/// Appends the 99 bytes of one peer record.
#[verifier::rlimit(100)]
#[verifier::spinoff_prover]
fn write_info(out: &mut Vec<u8>, p: &PeerInfo)
    ensures
        final(out)@ == old(out)@ + info_bytes(*p),
{
    crate::codec::write_u128_le(out, p.address.ip);
    crate::codec::write_u16_le(out, p.address.port);
    let sb: u8 = match p.state {
        PeerState::NeverConnected => 0,
        PeerState::Connecting => 1,
        PeerState::Connected => 2,
        PeerState::Disconnected => 3,
    };
    out.push(sb);
    write_opt_i64(out, p.first_seen);
    write_opt_i64(out, p.last_connected);
    write_opt_i64(out, p.last_disconnected);
    crate::codec::write_u64_le(out, p.connection_count);
    crate::codec::write_u64_le(out, p.disconnection_count);
    crate::codec::write_u64_le(out, p.quality.rtt_ms);
    let eb: u8 = if p.quality.expecting_pong {
        1
    } else {
        0
    };
    out.push(eb);
    write_opt_i64(out, p.quality.last_ping_sent);
    crate::codec::write_u64_le(out, p.quality.failures);
    crate::codec::write_u16_le(out, p.quality.remaining_sync_blocks);
    write_opt_i64(out, p.quality.last_seen);
    proof {
        assert(sb == state_byte(p.state));
        assert(out@ =~= old(out)@ + info_bytes(*p));
    }
}

impl PeerBook {
    /// Serializes the peer book for the ledger-adjacent store: every
    /// collection in full, with each peer's state, timestamps,
    /// counters and quality, so the history survives a restart.
    pub fn save(&self) -> (r: Vec<u8>)
        requires
            self.wf(),
            savable(*self),
        ensures
            r@ == spec_saved(*self),
    {
        let c1 = self.connecting_peers.len();
        let c2 = self.connected_peers.len();
        let c3 = self.disconnected_peers.len();
        let mut out: Vec<u8> = Vec::new();
        crate::codec::write_u32_le(&mut out, c1 as u32);
        crate::codec::write_u32_le(&mut out, c2 as u32);
        crate::codec::write_u32_le(&mut out, c3 as u32);
        let ghost header = crate::codec::u32_le(self.spec_num_connecting() as u32)
            + crate::codec::u32_le(self.spec_num_connected() as u32) + crate::codec::u32_le(
            self.spec_num_disconnected() as u32,
        );
        proof {
            assert(out@ =~= header);
            assert(self.spec_connecting_seq().take(0) =~= Seq::<PeerAddress>::empty());
            assert(out@ =~= header + crate::codec::cat_addrs(self.spec_connecting_seq().take(0)));
        }
        let mut i: usize = 0;
        while i < c1
            invariant
                self.wf(),
                c1 == self.spec_connecting_seq().len(),
                0 <= i <= c1,
                out@ == header + crate::codec::cat_addrs(self.spec_connecting_seq().take(i as int)),
            decreases c1 - i,
        {
            let a = self.connecting_peers[i];
            crate::codec::write_u128_le(&mut out, a.ip);
            crate::codec::write_u16_le(&mut out, a.port);
            proof {
                crate::codec::lemma_cat_addrs_take_succ(self.spec_connecting_seq(), i as int);
                assert(out@ =~= header + crate::codec::cat_addrs(
                    self.spec_connecting_seq().take(i + 1),
                ));
            }
            i = i + 1;
        }
        let ghost part1 = header + crate::codec::cat_addrs(self.spec_connecting_seq());
        proof {
            assert(self.spec_connecting_seq().take(c1 as int) =~= self.spec_connecting_seq());
            assert(self.spec_connected_seq().take(0) =~= Seq::<PeerInfo>::empty());
            assert(out@ =~= part1 + cat_infos(self.spec_connected_seq().take(0)));
        }
        let mut j: usize = 0;
        while j < c2
            invariant
                self.wf(),
                c2 == self.spec_connected_seq().len(),
                0 <= j <= c2,
                out@ == part1 + cat_infos(self.spec_connected_seq().take(j as int)),
            decreases c2 - j,
        {
            write_info(&mut out, &self.connected_peers[j]);
            proof {
                lemma_cat_infos_take_succ(self.spec_connected_seq(), j as int);
                assert(out@ =~= part1 + cat_infos(self.spec_connected_seq().take(j + 1)));
            }
            j = j + 1;
        }
        let ghost part2 = part1 + cat_infos(self.spec_connected_seq());
        proof {
            assert(self.spec_connected_seq().take(c2 as int) =~= self.spec_connected_seq());
            assert(self.spec_disconnected_seq().take(0) =~= Seq::<PeerInfo>::empty());
            assert(out@ =~= part2 + cat_infos(self.spec_disconnected_seq().take(0)));
        }
        let mut k: usize = 0;
        while k < c3
            invariant
                self.wf(),
                c3 == self.spec_disconnected_seq().len(),
                0 <= k <= c3,
                out@ == part2 + cat_infos(self.spec_disconnected_seq().take(k as int)),
            decreases c3 - k,
        {
            write_info(&mut out, &self.disconnected_peers[k]);
            proof {
                lemma_cat_infos_take_succ(self.spec_disconnected_seq(), k as int);
                assert(out@ =~= part2 + cat_infos(self.spec_disconnected_seq().take(k + 1)));
            }
            k = k + 1;
        }
        proof {
            assert(self.spec_disconnected_seq().take(c3 as int) =~= self.spec_disconnected_seq());
            assert(out@ =~= spec_saved(*self));
        }
        out
    }
}

/// Reads the optional timestamp whose nine bytes stand at `pos`; a
/// presence byte out of range, or a value behind an absent timestamp,
/// is no encoding at all.
fn read_opt_i64(b: &Vec<u8>, pos: usize) -> (r: Option<Option<i64>>)
    requires
        pos + 9 <= b@.len(),
    ensures
        r is Some ==> opt_i64_bytes(r->0) == b@.subrange(pos as int, pos as int + 9),
        r is None ==> forall|o: Option<i64>|
            opt_i64_bytes(o) != b@.subrange(pos as int, pos as int + 9),
{
    let _n = b.len();
    let tag = b[pos];
    let v = crate::codec::read_u64_le(b, pos + 1);
    proof {
        assert(b@.subrange(pos as int, pos as int + 9) =~= seq![b@[pos as int]] + b@.subrange(
            pos as int + 1,
            pos as int + 9,
        ));
    }
    if tag == 0 {
        if v == 0 {
            proof {
                assert(opt_i64_bytes(Option::None::<i64>) =~= seq![b@[pos as int]] + b@.subrange(
                    pos as int + 1,
                    pos as int + 9,
                ));
            }
            Some(None)
        } else {
            proof {
                assert forall|o: Option<i64>|
                    opt_i64_bytes(o) != b@.subrange(pos as int, pos as int + 9) by {
                    if opt_i64_bytes(o) == b@.subrange(pos as int, pos as int + 9) {
                        assert(opt_i64_bytes(o)[0] == tag);
                        match o {
                            Option::None => {
                                crate::codec::lemma_seq_cancel(
                                    seq![0u8],
                                    crate::codec::u64_le(0),
                                    seq![b@[pos as int]],
                                    b@.subrange(pos as int + 1, pos as int + 9),
                                );
                                crate::codec::lemma_u64_le_injective(0, v);
                            },
                            Option::Some(x) => {
                                assert(opt_i64_bytes(o)[0] == 1u8);
                            },
                        }
                    }
                }
            }
            None
        }
    } else if tag == 1 {
        let x = v as i64;
        proof {
            assert((v as i64) as u64 == v) by (bit_vector);
            assert(opt_i64_bytes(Option::Some(x)) =~= seq![b@[pos as int]] + b@.subrange(
                pos as int + 1,
                pos as int + 9,
            ));
        }
        Some(Some(x))
    } else {
        proof {
            assert forall|o: Option<i64>|
                opt_i64_bytes(o) != b@.subrange(pos as int, pos as int + 9) by {
                if opt_i64_bytes(o) == b@.subrange(pos as int, pos as int + 9) {
                    assert(opt_i64_bytes(o)[0] == tag);
                    match o {
                        Option::None => {
                            assert(opt_i64_bytes(o)[0] == 0u8);
                        },
                        Option::Some(x) => {
                            assert(opt_i64_bytes(o)[0] == 1u8);
                        },
                    }
                }
            }
        }
        None
    }
}

/// Reads the peer record whose 99 bytes stand at `pos`; bytes that are
/// no record (a state or presence byte out of range) are refused.
#[verifier::rlimit(100)]
#[verifier::spinoff_prover]
fn read_info(b: &Vec<u8>, pos: usize) -> (r: Option<PeerInfo>)
    requires
        pos + 99 <= b@.len(),
    ensures
        r is Some ==> info_bytes(r->0) == b@.subrange(pos as int, pos as int + 99),
        r is None ==> forall|p: PeerInfo|
            info_bytes(p) != b@.subrange(pos as int, pos as int + 99),
{
    let _n = b.len();
    let ghost slice = b@.subrange(pos as int, pos as int + 99);
    let ip = crate::codec::read_u128_le(b, pos);
    let port = crate::codec::read_u16_le(b, pos + 16);
    let sb = b[pos + 18];
    let eb = b[pos + 70];
    proof {
        assert(slice.subrange(0, 16) =~= b@.subrange(pos as int, pos as int + 16));
        assert(slice.subrange(16, 18) =~= b@.subrange(pos as int + 16, pos as int + 18));
        assert(slice[18] == b@[pos as int + 18]);
        assert(slice.subrange(19, 28) =~= b@.subrange(pos as int + 19, pos as int + 28));
        assert(slice.subrange(28, 37) =~= b@.subrange(pos as int + 28, pos as int + 37));
        assert(slice.subrange(37, 46) =~= b@.subrange(pos as int + 37, pos as int + 46));
        assert(slice.subrange(46, 54) =~= b@.subrange(pos as int + 46, pos as int + 54));
        assert(slice.subrange(54, 62) =~= b@.subrange(pos as int + 54, pos as int + 62));
        assert(slice.subrange(62, 70) =~= b@.subrange(pos as int + 62, pos as int + 70));
        assert(slice[70] == b@[pos as int + 70]);
        assert(slice.subrange(71, 80) =~= b@.subrange(pos as int + 71, pos as int + 80));
        assert(slice.subrange(80, 88) =~= b@.subrange(pos as int + 80, pos as int + 88));
        assert(slice.subrange(88, 90) =~= b@.subrange(pos as int + 88, pos as int + 90));
        assert(slice.subrange(90, 99) =~= b@.subrange(pos as int + 90, pos as int + 99));
    }
    if sb > 3 {
        proof {
            assert forall|p: PeerInfo| info_bytes(p) != slice by {
                if info_bytes(p) == slice {
                    lemma_info_fields(p);
                    assert(state_byte(p.state) == sb);
                    assert(state_byte(p.state) <= 3);
                }
            }
        }
        return None;
    }
    if eb > 1 {
        proof {
            assert forall|p: PeerInfo| info_bytes(p) != slice by {
                if info_bytes(p) == slice {
                    lemma_info_fields(p);
                    assert((if p.quality.expecting_pong {
                        1u8
                    } else {
                        0u8
                    }) == eb);
                }
            }
        }
        return None;
    }
    let first_seen = match read_opt_i64(b, pos + 19) {
        Some(o) => o,
        None => {
            proof {
                assert forall|p: PeerInfo| info_bytes(p) != slice by {
                    if info_bytes(p) == slice {
                        lemma_info_fields(p);
                    }
                }
            }
            return None;
        },
    };
    let last_connected = match read_opt_i64(b, pos + 28) {
        Some(o) => o,
        None => {
            proof {
                assert forall|p: PeerInfo| info_bytes(p) != slice by {
                    if info_bytes(p) == slice {
                        lemma_info_fields(p);
                    }
                }
            }
            return None;
        },
    };
    let last_disconnected = match read_opt_i64(b, pos + 37) {
        Some(o) => o,
        None => {
            proof {
                assert forall|p: PeerInfo| info_bytes(p) != slice by {
                    if info_bytes(p) == slice {
                        lemma_info_fields(p);
                    }
                }
            }
            return None;
        },
    };
    let connection_count = crate::codec::read_u64_le(b, pos + 46);
    let disconnection_count = crate::codec::read_u64_le(b, pos + 54);
    let rtt_ms = crate::codec::read_u64_le(b, pos + 62);
    let last_ping_sent = match read_opt_i64(b, pos + 71) {
        Some(o) => o,
        None => {
            proof {
                assert forall|p: PeerInfo| info_bytes(p) != slice by {
                    if info_bytes(p) == slice {
                        lemma_info_fields(p);
                    }
                }
            }
            return None;
        },
    };
    let failures = crate::codec::read_u64_le(b, pos + 80);
    let remaining_sync_blocks = crate::codec::read_u16_le(b, pos + 88);
    let last_seen = match read_opt_i64(b, pos + 90) {
        Some(o) => o,
        None => {
            proof {
                assert forall|p: PeerInfo| info_bytes(p) != slice by {
                    if info_bytes(p) == slice {
                        lemma_info_fields(p);
                    }
                }
            }
            return None;
        },
    };
    let state = if sb == 0 {
        PeerState::NeverConnected
    } else if sb == 1 {
        PeerState::Connecting
    } else if sb == 2 {
        PeerState::Connected
    } else {
        PeerState::Disconnected
    };
    let rec = PeerInfo {
        address: PeerAddress { ip, port },
        state,
        first_seen,
        last_connected,
        last_disconnected,
        connection_count,
        disconnection_count,
        quality: PeerQuality {
            rtt_ms,
            expecting_pong: eb == 1,
            last_ping_sent,
            failures,
            remaining_sync_blocks,
            last_seen,
        },
    };
    proof {
        lemma_info_fields(rec);
        assert(state_byte(rec.state) == sb);
        assert((if rec.quality.expecting_pong {
            1u8
        } else {
            0u8
        }) == eb);
        assert(info_bytes(rec) =~= slice);
    }
    Some(rec)
}

/// Parses a run of addresses; duplicates are refused, since no
/// well-formed book repeats an address within a collection.
#[verifier::rlimit(100)]
fn parse_addr_section(bytes: &Vec<u8>, start: usize, count: usize) -> (r: Option<Vec<PeerAddress>>)
    requires
        start + 18 * count <= bytes@.len(),
    ensures
        r is Some ==> ({
            let v = r->0;
            &&& v@.len() == count
            &&& distinct_peer_addrs(v@)
            &&& crate::codec::cat_addrs(v@) == bytes@.subrange(
                start as int,
                start as int + 18 * count,
            )
        }),
        r is None ==> forall|s: Seq<PeerAddress>|
            s.len() == count && distinct_peer_addrs(s) ==> crate::codec::cat_addrs(s)
                != bytes@.subrange(start as int, start as int + 18 * count),
{
    let _n = bytes.len();
    let ghost region = bytes@.subrange(start as int, start as int + 18 * count as int);
    let mut out: Vec<PeerAddress> = Vec::new();
    proof {
        assert(crate::codec::cat_addrs(out@) =~= region.subrange(0, 0));
        assert(out@.take(0) =~= out@);
    }
    let mut i: usize = 0;
    while i < count
        invariant
            start + 18 * count <= bytes@.len(),
            bytes@.len() <= usize::MAX,
            region == bytes@.subrange(start as int, start as int + 18 * count as int),
            0 <= i <= count,
            out@.len() == i,
            distinct_peer_addrs(out@),
            forall|j: int|
                0 <= j < i ==> crate::codec::addr_bytes(#[trigger] out@[j]) == bytes@.subrange(
                    start as int + 18 * j,
                    start as int + 18 * j + 18,
                ),
            crate::codec::cat_addrs(out@) == bytes@.subrange(
                start as int,
                start as int + 18 * i,
            ),
        decreases count - i,
    {
        let pos = start + 18 * i;
        let ip = crate::codec::read_u128_le(bytes, pos);
        let port = crate::codec::read_u16_le(bytes, pos + 16);
        let a = PeerAddress { ip, port };
        proof {
            assert(crate::codec::addr_bytes(a) =~= bytes@.subrange(
                pos as int,
                pos as int + 18,
            ));
        }
        match find_addr(&out, a) {
            Some(k) => {
                proof {
                    assert forall|s: Seq<PeerAddress>|
                        s.len() == count && distinct_peer_addrs(s) implies crate::codec::cat_addrs(
                        s,
                    ) != region by {
                        if crate::codec::cat_addrs(s) == region {
                            lemma_cat_addrs_slice(s, region);
                            assert(region.subrange(18 * (k as int), 18 * (k as int) + 18)
                                =~= bytes@.subrange(
                                start as int + 18 * (k as int),
                                start as int + 18 * (k as int) + 18,
                            ));
                            assert(region.subrange(18 * (i as int), 18 * (i as int) + 18)
                                =~= bytes@.subrange(pos as int, pos as int + 18));
                            assert(crate::codec::addr_bytes(s[k as int])
                                == crate::codec::addr_bytes(out@[k as int]));
                            crate::codec::lemma_seq_cancel(
                                crate::codec::u128_le(s[k as int].ip),
                                crate::codec::u16_le(s[k as int].port),
                                crate::codec::u128_le(out@[k as int].ip),
                                crate::codec::u16_le(out@[k as int].port),
                            );
                            crate::codec::lemma_u128_le_injective(s[k as int].ip, out@[k as int].ip);
                            crate::codec::lemma_u16_le_injective(
                                s[k as int].port,
                                out@[k as int].port,
                            );
                            assert(s[k as int] == out@[k as int]);
                            assert(crate::codec::addr_bytes(s[i as int])
                                == crate::codec::addr_bytes(a));
                            crate::codec::lemma_seq_cancel(
                                crate::codec::u128_le(s[i as int].ip),
                                crate::codec::u16_le(s[i as int].port),
                                crate::codec::u128_le(a.ip),
                                crate::codec::u16_le(a.port),
                            );
                            crate::codec::lemma_u128_le_injective(s[i as int].ip, a.ip);
                            crate::codec::lemma_u16_le_injective(s[i as int].port, a.port);
                            assert(s[i as int] == a);
                            assert(out@[k as int] == a);
                            assert(s[k as int] != s[i as int]);
                        }
                    }
                }
                return None;
            },
            None => {},
        }
        let ghost old_out = out@;
        out.push(a);
        proof {
            assert(out@.drop_last() =~= old_out);
            assert(crate::codec::cat_addrs(out@) == crate::codec::cat_addrs(old_out)
                + crate::codec::addr_bytes(a));
            assert(crate::codec::cat_addrs(out@) =~= bytes@.subrange(
                start as int,
                start as int + 18 * (i + 1),
            ));
            assert forall|x: int, y: int|
                0 <= x < y < out@.len() implies #[trigger] out@[x] != #[trigger] out@[y] by {
                if y < old_out.len() {
                    assert(out@[x] == old_out[x] && out@[y] == old_out[y]);
                } else {
                    assert(out@[x] == old_out[x] && out@[y] == a);
                    assert(!old_out.contains(a));
                    assert(old_out.contains(old_out[x]));
                }
            }
        }
        i = i + 1;
    }
    proof {
        assert(bytes@.subrange(start as int, start as int + 18 * count as int) =~= region);
    }
    Some(out)
}


/// What a run of connected-peer records must satisfy: each record well
/// formed, connected, with an address repeated nowhere in the run nor
/// among the handshakes.
pub open spec fn connected_section_ok(s: Seq<PeerInfo>, connecting: Seq<PeerAddress>) -> bool {
    &&& distinct_addrs(s)
    &&& forall|i: int|
        0 <= i < s.len() ==> (#[trigger] s[i]).wf() && s[i].state == PeerState::Connected
            && !connecting.contains(s[i].address)
}

/// What a run of disconnected-peer records must satisfy: each record
/// well formed and not connected, with an address repeated nowhere in
/// the run nor among the connected records.
pub open spec fn disconnected_section_ok(s: Seq<PeerInfo>, connected: Seq<PeerInfo>) -> bool {
    &&& distinct_addrs(s)
    &&& forall|i: int|
        0 <= i < s.len() ==> (#[trigger] s[i]).wf() && s[i].state != PeerState::Connected && s[
        i].state != PeerState::Connecting && !has_addr(connected, s[i].address)
}

/// A record run matching a region byte-for-byte is pinned record by
/// record: the records already parsed, and the one at hand, are its
/// records.
#[verifier::rlimit(100)]
#[verifier::spinoff_prover]
proof fn lemma_section_pins(
    s: Seq<PeerInfo>,
    region: Seq<u8>,
    out: Seq<PeerInfo>,
    start: int,
    bytes: Seq<u8>,
    i: int,
    rec: PeerInfo,
)
    requires
        0 <= start,
        start + 99 * s.len() <= bytes.len(),
        cat_infos(s) == region,
        region == bytes.subrange(start, start + 99 * s.len()),
        out.len() == i,
        0 <= i < s.len(),
        forall|j: int|
            0 <= j < i ==> info_bytes(#[trigger] out[j]) == bytes.subrange(
                start + 99 * j,
                start + 99 * j + 99,
            ),
        info_bytes(rec) == bytes.subrange(start + 99 * i, start + 99 * i + 99),
    ensures
        s[i] == rec,
        forall|j: int| 0 <= j < i ==> s[j] == out[j],
{
    lemma_cat_infos_slice(s, region);
    assert forall|j: int| 0 <= j <= i implies info_bytes(#[trigger] s[j]) == bytes.subrange(
        start + 99 * j,
        start + 99 * j + 99,
    ) by {
        assert(region.subrange(99 * j, 99 * j + 99) =~= bytes.subrange(
            start + 99 * j,
            start + 99 * j + 99,
        ));
    }
    lemma_info_bytes_inj(s[i], rec);
    assert forall|j: int| 0 <= j < i implies s[j] == out[j] by {
        lemma_info_bytes_inj(s[j], out[j]);
    }
}


/// No record run can match a region whose record slot at `i` is no
/// record at all.
#[verifier::spinoff_prover]
proof fn lemma_refute_no_connected(
    bytes: Seq<u8>,
    start: int,
    count: int,
    region: Seq<u8>,
    i: int,
    connecting: Seq<PeerAddress>,
)
    requires
        0 <= start,
        start + 99 * count <= bytes.len(),
        region == bytes.subrange(start, start + 99 * count),
        0 <= i < count,
        forall|p: PeerInfo|
            info_bytes(p) != bytes.subrange(start + 99 * i, start + 99 * i + 99),
    ensures
        forall|s: Seq<PeerInfo>|
            s.len() == count && connected_section_ok(s, connecting) ==> cat_infos(s) != region,
{
    assert forall|s: Seq<PeerInfo>|
        s.len() == count && connected_section_ok(s, connecting) implies cat_infos(s)
        != region by {
        if cat_infos(s) == region {
            lemma_cat_infos_slice(s, region);
            assert(info_bytes(s[i]) == region.subrange(99 * i, 99 * i + 99));
            assert(region.subrange(99 * i, 99 * i + 99) =~= bytes.subrange(
                start + 99 * i,
                start + 99 * i + 99,
            ));
        }
    }
}

/// No connected run can match a region whose record at `i` is
/// inadmissible there.
#[verifier::spinoff_prover]
proof fn lemma_refute_connected(
    bytes: Seq<u8>,
    start: int,
    count: int,
    region: Seq<u8>,
    out: Seq<PeerInfo>,
    i: int,
    rec: PeerInfo,
    connecting: Seq<PeerAddress>,
)
    requires
        0 <= start,
        start + 99 * count <= bytes.len(),
        region == bytes.subrange(start, start + 99 * count),
        out.len() == i,
        0 <= i < count,
        forall|j: int|
            0 <= j < i ==> info_bytes(#[trigger] out[j]) == bytes.subrange(
                start + 99 * j,
                start + 99 * j + 99,
            ),
        info_bytes(rec) == bytes.subrange(start + 99 * i, start + 99 * i + 99),
        !(rec.wf() && rec.state == PeerState::Connected && !connecting.contains(rec.address)
            && !has_addr(out, rec.address)),
    ensures
        forall|s: Seq<PeerInfo>|
            s.len() == count && connected_section_ok(s, connecting) ==> cat_infos(s) != region,
{
    assert forall|s: Seq<PeerInfo>|
        s.len() == count && connected_section_ok(s, connecting) implies cat_infos(s)
        != region by {
        if cat_infos(s) == region {
            lemma_section_pins(s, region, out, start, bytes, i, rec);
            assert(s[i].wf() && s[i].state == PeerState::Connected && !connecting.contains(
                s[i].address,
            ));
            if has_addr(out, rec.address) {
                let k = addr_index(out, rec.address);
                assert(0 <= k < out.len() && out[k].address == rec.address);
                assert(s[k] == out[k]);
                assert(s[k].address == s[i].address);
                assert(s[k] != s[i]);
            }
        }
    }
}

/// No record run can match a region whose record slot at `i` is no
/// record at all.
#[verifier::spinoff_prover]
proof fn lemma_refute_no_disconnected(
    bytes: Seq<u8>,
    start: int,
    count: int,
    region: Seq<u8>,
    i: int,
    connected: Seq<PeerInfo>,
)
    requires
        0 <= start,
        start + 99 * count <= bytes.len(),
        region == bytes.subrange(start, start + 99 * count),
        0 <= i < count,
        forall|p: PeerInfo|
            info_bytes(p) != bytes.subrange(start + 99 * i, start + 99 * i + 99),
    ensures
        forall|s: Seq<PeerInfo>|
            s.len() == count && disconnected_section_ok(s, connected) ==> cat_infos(s) != region,
{
    assert forall|s: Seq<PeerInfo>|
        s.len() == count && disconnected_section_ok(s, connected) implies cat_infos(s)
        != region by {
        if cat_infos(s) == region {
            lemma_cat_infos_slice(s, region);
            assert(info_bytes(s[i]) == region.subrange(99 * i, 99 * i + 99));
            assert(region.subrange(99 * i, 99 * i + 99) =~= bytes.subrange(
                start + 99 * i,
                start + 99 * i + 99,
            ));
        }
    }
}

/// No disconnected run can match a region whose record at `i` is
/// inadmissible there.
#[verifier::spinoff_prover]
proof fn lemma_refute_disconnected(
    bytes: Seq<u8>,
    start: int,
    count: int,
    region: Seq<u8>,
    out: Seq<PeerInfo>,
    i: int,
    rec: PeerInfo,
    connected: Seq<PeerInfo>,
)
    requires
        0 <= start,
        start + 99 * count <= bytes.len(),
        region == bytes.subrange(start, start + 99 * count),
        out.len() == i,
        0 <= i < count,
        forall|j: int|
            0 <= j < i ==> info_bytes(#[trigger] out[j]) == bytes.subrange(
                start + 99 * j,
                start + 99 * j + 99,
            ),
        info_bytes(rec) == bytes.subrange(start + 99 * i, start + 99 * i + 99),
        !(rec.wf() && rec.state != PeerState::Connected && rec.state != PeerState::Connecting
            && !has_addr(connected, rec.address) && !has_addr(out, rec.address)),
    ensures
        forall|s: Seq<PeerInfo>|
            s.len() == count && disconnected_section_ok(s, connected) ==> cat_infos(s) != region,
{
    assert forall|s: Seq<PeerInfo>|
        s.len() == count && disconnected_section_ok(s, connected) implies cat_infos(s)
        != region by {
        if cat_infos(s) == region {
            lemma_section_pins(s, region, out, start, bytes, i, rec);
            assert(s[i].wf() && s[i].state != PeerState::Connected && s[i].state
                != PeerState::Connecting && !has_addr(connected, s[i].address));
            if has_addr(out, rec.address) {
                let k = addr_index(out, rec.address);
                assert(0 <= k < out.len() && out[k].address == rec.address);
                assert(s[k] == out[k]);
                assert(s[k].address == s[i].address);
                assert(s[k] != s[i]);
            }
        }
    }
}


/// Parses a run of connected-peer records. Anything no well-formed
/// book would serialize there is refused.
#[verifier::rlimit(100)]
#[verifier::spinoff_prover]
fn parse_connected_section(
    bytes: &Vec<u8>,
    start: usize,
    count: usize,
    connecting: &Vec<PeerAddress>,
) -> (r: Option<Vec<PeerInfo>>)
    requires
        start + 99 * count <= bytes@.len(),
    ensures
        r is Some ==> ({
            let v = r->0;
            &&& v@.len() == count
            &&& connected_section_ok(v@, connecting@)
            &&& cat_infos(v@) == bytes@.subrange(start as int, start as int + 99 * count)
        }),
        r is None ==> forall|s: Seq<PeerInfo>|
            s.len() == count && connected_section_ok(s, connecting@) ==> cat_infos(s)
                != bytes@.subrange(start as int, start as int + 99 * count),
{
    let _n = bytes.len();
    let ghost region = bytes@.subrange(start as int, start as int + 99 * count as int);
    let mut out: Vec<PeerInfo> = Vec::new();
    proof {
        assert(cat_infos(out@) =~= region.subrange(0, 0));
    }
    let mut i: usize = 0;
    while i < count
        invariant
            start + 99 * count <= bytes@.len(),
            bytes@.len() <= usize::MAX,
            region == bytes@.subrange(start as int, start as int + 99 * count as int),
            0 <= i <= count,
            out@.len() == i,
            connected_section_ok(out@, connecting@),
            forall|j: int|
                0 <= j < i ==> info_bytes(#[trigger] out@[j]) == bytes@.subrange(
                    start as int + 99 * j,
                    start as int + 99 * j + 99,
                ),
            cat_infos(out@) == bytes@.subrange(start as int, start as int + 99 * i),
        decreases count - i,
    {
        let pos = start + 99 * i;
        let rec = match read_info(bytes, pos) {
            Some(rec) => rec,
            None => {
                proof {
                    lemma_refute_no_connected(
                        bytes@,
                        start as int,
                        count as int,
                        region,
                        i as int,
                        connecting@,
                    );
                }
                return None;
            },
        };
        let satdc = if rec.disconnection_count < u64::MAX {
            rec.disconnection_count + 1
        } else {
            rec.disconnection_count
        };
        let mut ok = matches!(rec.state, PeerState::Connected);
        ok = ok && rec.connection_count == satdc;
        ok = ok && (!rec.quality.expecting_pong || rec.quality.last_ping_sent.is_some());
        let dup = find_index(&out, rec.address);
        ok = ok && dup.is_none();
        let in_connecting = find_addr(connecting, rec.address);
        ok = ok && in_connecting.is_none();
        if !ok {
            proof {
                assert(satdc == sat_inc(rec.disconnection_count));
                if dup is Some {
                    assert(out@[dup->Some_0 as int].address == rec.address);
                    assert(has_addr(out@, rec.address));
                }
                if in_connecting is Some {
                    assert(connecting@[in_connecting->Some_0 as int] == rec.address);
                    assert(connecting@.contains(rec.address));
                }
                assert(!(rec.wf() && rec.state == PeerState::Connected
                    && !connecting@.contains(rec.address) && !has_addr(out@, rec.address)));
                lemma_refute_connected(
                    bytes@,
                    start as int,
                    count as int,
                    region,
                    out@,
                    i as int,
                    rec,
                    connecting@,
                );
            }
            return None;
        }
        let ghost old_out = out@;
        out.push(rec);
        proof {
            assert(out@.drop_last() =~= old_out);
            assert(cat_infos(out@) == cat_infos(old_out) + info_bytes(rec));
            assert(cat_infos(out@) =~= bytes@.subrange(
                start as int,
                start as int + 99 * (i + 1),
            ));
            assert(!has_addr(old_out, rec.address));
            assert forall|x: int, y: int|
                0 <= x < y < out@.len() implies (#[trigger] out@[x]).address != (
            #[trigger] out@[y]).address by {
                if y < old_out.len() {
                    assert(out@[x] == old_out[x] && out@[y] == old_out[y]);
                } else {
                    assert(out@[x] == old_out[x] && out@[y] == rec);
                    if old_out[x].address == rec.address {
                        lemma_addr_index(old_out, rec.address, x);
                    }
                }
            }
            assert forall|j: int|
                0 <= j < out@.len() implies (#[trigger] out@[j]).wf() && out@[j].state
                == PeerState::Connected && !connecting@.contains(out@[j].address) by {
                if j < old_out.len() {
                    assert(out@[j] == old_out[j]);
                }
            }
        }
        i = i + 1;
    }
    proof {
        assert(bytes@.subrange(start as int, start as int + 99 * count as int) =~= region);
    }
    Some(out)
}

/// Parses a run of disconnected-peer records. Anything no well-formed
/// book would serialize there is refused.
#[verifier::rlimit(100)]
#[verifier::spinoff_prover]
fn parse_disconnected_section(
    bytes: &Vec<u8>,
    start: usize,
    count: usize,
    connected: &Vec<PeerInfo>,
) -> (r: Option<Vec<PeerInfo>>)
    requires
        start + 99 * count <= bytes@.len(),
    ensures
        r is Some ==> ({
            let v = r->0;
            &&& v@.len() == count
            &&& disconnected_section_ok(v@, connected@)
            &&& cat_infos(v@) == bytes@.subrange(start as int, start as int + 99 * count)
        }),
        r is None ==> forall|s: Seq<PeerInfo>|
            s.len() == count && disconnected_section_ok(s, connected@) ==> cat_infos(s)
                != bytes@.subrange(start as int, start as int + 99 * count),
{
    let _n = bytes.len();
    let ghost region = bytes@.subrange(start as int, start as int + 99 * count as int);
    let mut out: Vec<PeerInfo> = Vec::new();
    proof {
        assert(cat_infos(out@) =~= region.subrange(0, 0));
    }
    let mut i: usize = 0;
    while i < count
        invariant
            start + 99 * count <= bytes@.len(),
            bytes@.len() <= usize::MAX,
            region == bytes@.subrange(start as int, start as int + 99 * count as int),
            0 <= i <= count,
            out@.len() == i,
            disconnected_section_ok(out@, connected@),
            forall|j: int|
                0 <= j < i ==> info_bytes(#[trigger] out@[j]) == bytes@.subrange(
                    start as int + 99 * j,
                    start as int + 99 * j + 99,
                ),
            cat_infos(out@) == bytes@.subrange(start as int, start as int + 99 * i),
        decreases count - i,
    {
        let pos = start + 99 * i;
        let rec = match read_info(bytes, pos) {
            Some(rec) => rec,
            None => {
                proof {
                    lemma_refute_no_disconnected(
                        bytes@,
                        start as int,
                        count as int,
                        region,
                        i as int,
                        connected@,
                    );
                }
                return None;
            },
        };
        let counters_ok = match rec.state {
            PeerState::NeverConnected => rec.connection_count == 0 && rec.disconnection_count
                == 0,
            PeerState::Disconnected => rec.connection_count == rec.disconnection_count,
            PeerState::Connecting => false,
            PeerState::Connected => false,
        };
        let mut ok = counters_ok;
        ok = ok && (!rec.quality.expecting_pong || rec.quality.last_ping_sent.is_some());
        let dup = find_index(&out, rec.address);
        ok = ok && dup.is_none();
        let clash = find_index(connected, rec.address);
        ok = ok && clash.is_none();
        if !ok {
            proof {
                if dup is Some {
                    assert(out@[dup->Some_0 as int].address == rec.address);
                    assert(has_addr(out@, rec.address));
                }
                if clash is Some {
                    assert(connected@[clash->Some_0 as int].address == rec.address);
                    assert(has_addr(connected@, rec.address));
                }
                assert(!(rec.wf() && rec.state != PeerState::Connected && rec.state
                    != PeerState::Connecting && !has_addr(connected@, rec.address) && !has_addr(
                    out@,
                    rec.address,
                )));
                lemma_refute_disconnected(
                    bytes@,
                    start as int,
                    count as int,
                    region,
                    out@,
                    i as int,
                    rec,
                    connected@,
                );
            }
            return None;
        }
        let ghost old_out = out@;
        out.push(rec);
        proof {
            assert(out@.drop_last() =~= old_out);
            assert(cat_infos(out@) == cat_infos(old_out) + info_bytes(rec));
            assert(cat_infos(out@) =~= bytes@.subrange(
                start as int,
                start as int + 99 * (i + 1),
            ));
            assert(!has_addr(old_out, rec.address));
            assert forall|x: int, y: int|
                0 <= x < y < out@.len() implies (#[trigger] out@[x]).address != (
            #[trigger] out@[y]).address by {
                if y < old_out.len() {
                    assert(out@[x] == old_out[x] && out@[y] == old_out[y]);
                } else {
                    assert(out@[x] == old_out[x] && out@[y] == rec);
                    if old_out[x].address == rec.address {
                        lemma_addr_index(old_out, rec.address, x);
                    }
                }
            }
            assert forall|j: int|
                0 <= j < out@.len() implies (#[trigger] out@[j]).wf() && out@[j].state
                != PeerState::Connected && out@[j].state != PeerState::Connecting && !has_addr(
                connected@,
                out@[j].address,
            ) by {
                if j < old_out.len() {
                    assert(out@[j] == old_out[j]);
                }
            }
        }
        i = i + 1;
    }
    proof {
        assert(bytes@.subrange(start as int, start as int + 99 * count as int) =~= region);
    }
    Some(out)
}


/// Address runs of one length with the same bytes are the same run.
proof fn lemma_cat_addrs_same(s1: Seq<PeerAddress>, s2: Seq<PeerAddress>)
    requires
        s1.len() == s2.len(),
        crate::codec::cat_addrs(s1) == crate::codec::cat_addrs(s2),
    ensures
        s1 == s2,
{
    let region = crate::codec::cat_addrs(s1);
    lemma_cat_addrs_slice(s1, region);
    lemma_cat_addrs_slice(s2, region);
    assert forall|j: int| 0 <= j < s1.len() implies #[trigger] s1[j] == s2[j] by {
        crate::codec::lemma_seq_cancel(
            crate::codec::u128_le(s1[j].ip),
            crate::codec::u16_le(s1[j].port),
            crate::codec::u128_le(s2[j].ip),
            crate::codec::u16_le(s2[j].port),
        );
        crate::codec::lemma_u128_le_injective(s1[j].ip, s2[j].ip);
        crate::codec::lemma_u16_le_injective(s1[j].port, s2[j].port);
    }
    assert(s1 =~= s2);
}

/// Record runs of one length with the same bytes are the same run.
proof fn lemma_cat_infos_same(s1: Seq<PeerInfo>, s2: Seq<PeerInfo>)
    requires
        s1.len() == s2.len(),
        cat_infos(s1) == cat_infos(s2),
    ensures
        s1 == s2,
{
    let region = cat_infos(s1);
    lemma_cat_infos_slice(s1, region);
    lemma_cat_infos_slice(s2, region);
    assert forall|j: int| 0 <= j < s1.len() implies #[trigger] s1[j] == s2[j] by {
        lemma_info_bytes_inj(s1[j], s2[j]);
    }
    assert(s1 =~= s2);
}

/// A savable book matching a byte string has exactly the counts its
/// header reads, and its collections fill the three sections.
#[verifier::spinoff_prover]
proof fn lemma_pinned(b0: PeerBook, bytes: Seq<u8>, c1: u32, c2: u32, c3: u32)
    requires
        savable(b0),
        spec_saved(b0) == bytes,
        bytes.len() >= 12,
        crate::codec::u32_le(c1) == bytes.subrange(0, 4),
        crate::codec::u32_le(c2) == bytes.subrange(4, 8),
        crate::codec::u32_le(c3) == bytes.subrange(8, 12),
    ensures
        b0.spec_num_connecting() == c1,
        b0.spec_num_connected() == c2,
        b0.spec_num_disconnected() == c3,
        bytes.len() == 12 + 18 * c1 + 99 * c2 + 99 * c3,
        crate::codec::cat_addrs(b0.spec_connecting_seq()) == bytes.subrange(12, 12 + 18 * c1),
        cat_infos(b0.spec_connected_seq()) == bytes.subrange(
            12 + 18 * c1,
            12 + 18 * c1 + 99 * c2,
        ),
        cat_infos(b0.spec_disconnected_seq()) == bytes.subrange(
            12 + 18 * c1 + 99 * c2,
            bytes.len() as int,
        ),
{
    lemma_saved_shape(b0, bytes);
    crate::codec::lemma_u32_le_injective(b0.spec_num_connecting() as u32, c1);
    crate::codec::lemma_u32_le_injective(b0.spec_num_connected() as u32, c2);
    crate::codec::lemma_u32_le_injective(b0.spec_num_disconnected() as u32, c3);
}

impl PeerBook {
    /// Reads a serialized peer book back, restoring all three
    /// collections record for record, exactly as `save` wrote them.
    /// Bytes that are not the saved image of a well-formed book fail
    /// with `PeerBookFailedToLoad`; a caller treats that as an empty
    /// book rather than an error worth stopping for.
    #[verifier::rlimit(100)]
    #[verifier::spinoff_prover]
    pub fn load(bytes: &Vec<u8>) -> (r: Result<PeerBook, NetworkError>)
        ensures
            r is Err ==> r->Err_0 == NetworkError::PeerBookFailedToLoad,
            r is Ok ==> r->Ok_0.wf() && savable(r->Ok_0) && spec_saved(r->Ok_0) == bytes@,
            r is Err ==> forall|b0: PeerBook|
                b0.wf() && savable(b0) ==> spec_saved(b0) != bytes@,
    {
        let total = bytes.len();
        if total < 12 {
            proof {
                assert forall|b0: PeerBook|
                    b0.wf() && savable(b0) implies spec_saved(b0) != bytes@ by {
                    if spec_saved(b0) == bytes@ {
                        lemma_saved_shape(b0, bytes@);
                    }
                }
            }
            return Err(NetworkError::PeerBookFailedToLoad);
        }
        let c1 = crate::codec::read_u32_le(bytes, 0);
        let c2 = crate::codec::read_u32_le(bytes, 4);
        let c3 = crate::codec::read_u32_le(bytes, 8);
        let expected: u64 = 12 + 18 * (c1 as u64) + 99 * (c2 as u64) + 99 * (c3 as u64);
        if (total as u64) != expected {
            proof {
                assert forall|b0: PeerBook|
                    b0.wf() && savable(b0) implies spec_saved(b0) != bytes@ by {
                    if spec_saved(b0) == bytes@ {
                        lemma_pinned(b0, bytes@, c1, c2, c3);
                    }
                }
            }
            return Err(NetworkError::PeerBookFailedToLoad);
        }
        let a0: usize = 12 + 18 * (c1 as usize);
        let b1: usize = a0 + 99 * (c2 as usize);
        let connecting = match parse_addr_section(bytes, 12, c1 as usize) {
            Some(v) => v,
            None => {
                proof {
                    assert forall|b0: PeerBook|
                        b0.wf() && savable(b0) implies spec_saved(b0) != bytes@ by {
                        if spec_saved(b0) == bytes@ {
                            lemma_pinned(b0, bytes@, c1, c2, c3);
                            lemma_wf_distinct(b0);
                            assert(bytes@.subrange(12, 12 + 18 * (c1 as int)) =~= bytes@.subrange(
                                12int,
                                12 + 18 * (c1 as int),
                            ));
                        }
                    }
                }
                return Err(NetworkError::PeerBookFailedToLoad);
            },
        };
        let connected = match parse_connected_section(bytes, a0, c2 as usize, &connecting) {
            Some(v) => v,
            None => {
                proof {
                    assert forall|b0: PeerBook|
                        b0.wf() && savable(b0) implies spec_saved(b0) != bytes@ by {
                        if spec_saved(b0) == bytes@ {
                            lemma_pinned(b0, bytes@, c1, c2, c3);
                            lemma_wf_distinct(b0);
                            lemma_cat_addrs_same(b0.spec_connecting_seq(), connecting@);
                            assert(connected_section_ok(b0.spec_connected_seq(), connecting@));
                        }
                    }
                }
                return Err(NetworkError::PeerBookFailedToLoad);
            },
        };
        let disconnected = match parse_disconnected_section(bytes, b1, c3 as usize, &connected) {
            Some(v) => v,
            None => {
                proof {
                    assert forall|b0: PeerBook|
                        b0.wf() && savable(b0) implies spec_saved(b0) != bytes@ by {
                        if spec_saved(b0) == bytes@ {
                            lemma_pinned(b0, bytes@, c1, c2, c3);
                            lemma_wf_distinct(b0);
                            lemma_cat_infos_same(b0.spec_connected_seq(), connected@);
                            assert forall|j: int|
                                0 <= j < b0.spec_disconnected_seq().len() implies !has_addr(
                                connected@,
                                (#[trigger] b0.spec_disconnected_seq()[j]).address,
                            ) by {
                                if has_addr(connected@, b0.spec_disconnected_seq()[j].address) {
                                    let k = addr_index(
                                        connected@,
                                        b0.spec_disconnected_seq()[j].address,
                                    );
                                    assert(b0.spec_connected_seq()[k].address
                                        == b0.spec_disconnected_seq()[j].address);
                                    assert(has_addr(
                                        b0.spec_disconnected_seq(),
                                        b0.spec_connected_seq()[k].address,
                                    ));
                                }
                            }
                            assert(disconnected_section_ok(
                                b0.spec_disconnected_seq(),
                                connected@,
                            ));
                        }
                    }
                }
                return Err(NetworkError::PeerBookFailedToLoad);
            },
        };
        let book = PeerBook {
            connecting_peers: connecting,
            connected_peers: connected,
            disconnected_peers: disconnected,
        };
        proof {
            assert forall|i: int|
                0 <= i < book.connected_peers@.len() implies !book.connecting_peers@.contains(
                (#[trigger] book.connected_peers@[i]).address,
            ) && !has_addr(book.disconnected_peers@, book.connected_peers@[i].address) by {
                if has_addr(book.disconnected_peers@, book.connected_peers@[i].address) {
                    let j = addr_index(
                        book.disconnected_peers@,
                        book.connected_peers@[i].address,
                    );
                    assert(book.disconnected_peers@[j].address
                        == book.connected_peers@[i].address);
                    assert(has_addr(book.connected_peers@, book.disconnected_peers@[j].address));
                }
            }
            assert(book.wf());
            assert(book.spec_num_connecting() == c1);
            assert(book.spec_num_connected() == c2);
            assert(book.spec_num_disconnected() == c3);
            assert(spec_saved(book) =~= bytes@);
        }
        Ok(book)
    }
}

} // verus!
