//! The membership state: peers, local shares and remote shares, kept
//! mutually consistent by a single writer.
//!
//! Every operation either fails without touching the state or moves it as
//! the matching transition of [`crate::model`] says, and keeps
//! [`membership_invariant`]. Notifications and cancellations reach peer
//! tasks through channels whose delivery failures are ignored; the ghost
//! signal log records what was sent.

use vstd::prelude::*;
use crate::model::{
    FullKey, PeerSocket, PeerView, RemoteShareView, ShareView, Signal, StateView, idle,
    membership_invariant, add_share_model, new_peer_model, connect_model, unbind_model,
    drop_if_idle, disconnect_model, kick_model, kick_all, close_check, remove_share_model, remove_peer_model,
    new_remote_model, join_remote_model, exit_remote_model,
};
use crate::shares::{CommonShareName, FullShareName};
use crate::table::{table, unique_keys, set_of, distinct};
use crate::dto::{PeersDto, RemoteShareDto, RemoteSharesDto, ShareDto, SharesDto};
use crate::shares::RemotePeerAddr;

verus! {

#[verifier::external_type_specification]
#[verifier::external_body]
#[verifier::reject_recursive_types(T)]
pub struct ExChannelSender<T>(smol::channel::Sender<T>);

#[verifier::external_type_specification]
#[verifier::external_body]
#[verifier::reject_recursive_types(T)]
pub struct ExBroadcastSender<T>(async_broadcast::Sender<T>);

/// Relies on async_channel::Sender::try_send: enqueues without waiting; a
/// full or closed channel makes the send fail, and that failure is ignored.
#[verifier::external_body]
fn send_ignoring_failure<T>(tx: &smol::channel::Sender<T>, msg: T) {
    let _ = tx.try_send(msg);
}

/// Relies on async_broadcast::Sender::try_broadcast: broadcasts without
/// waiting; a full or closed channel makes it fail, which is ignored.
#[verifier::external_body]
fn broadcast_ignoring_failure<T: Clone>(tx: &async_broadcast::Sender<T>, msg: T) {
    let _ = tx.try_broadcast(msg);
}

/// Identifier of a peer, unique while the daemon runs.
#[derive(Clone, Copy, Debug, PartialEq, Eq, Structural, PartialOrd, Ord, Hash)]
pub struct PeerId(pub u32);

/// What the state tells a peer's task.
#[derive(Clone, Debug)]
pub enum StateNotification {
    KickedFromShare(CommonShareName),
}

impl StateNotification {
    pub fn is_kicked_from_share(&self) -> (r: bool)
        ensures
            r == (*self is KickedFromShare),
    {
        matches!(self, StateNotification::KickedFromShare(_))
    }
}

/// A remote daemon with at least one membership edge.
#[derive(Debug)]
pub struct Peer {
    pub address: PeerSocket,
    used_remote_shares: Vec<FullShareName>,
    used_shares: Vec<CommonShareName>,
    shutdown_tx: smol::channel::Sender<()>,
    notification_tx: smol::channel::Sender<StateNotification>,
}

pub open spec fn name_views(s: Seq<CommonShareName>) -> Seq<Seq<char>> {
    s.map_values(|n: CommonShareName| n@)
}

pub open spec fn full_name_views(s: Seq<FullShareName>) -> Seq<FullKey> {
    s.map_values(|f: FullShareName| f@)
}

pub open spec fn id_views(s: Seq<PeerId>) -> Seq<u32> {
    s.map_values(|p: PeerId| p.0)
}

/// Ids in strictly increasing order.
pub open spec fn ids_ascending(s: Seq<PeerId>) -> bool {
    forall|a: int, b: int| 0 <= a < b < s.len() ==> s[a].0 < s[b].0
}

impl View for Peer {
    type V = PeerView;

    closed spec fn view(&self) -> PeerView {
        PeerView {
            address: self.address,
            used_shares: set_of(name_views(self.used_shares@)),
            used_remote_shares: set_of(full_name_views(self.used_remote_shares@)),
        }
    }
}

impl Peer {
    pub closed spec fn wf(&self) -> bool {
        &&& distinct(name_views(self.used_shares@))
        &&& distinct(full_name_views(self.used_remote_shares@))
    }

    /// The peer's socket address.
    pub fn socket(&self) -> (r: PeerSocket)
        ensures
            r == self@.address,
    {
        self.address
    }

    /// A peer that is not bound to anything yet.
    pub fn new(
        address: PeerSocket,
        shutdown_tx: smol::channel::Sender<()>,
        notification_tx: smol::channel::Sender<StateNotification>,
    ) -> (r: Peer)
        ensures
            r.wf(),
            r@.address == address,
            idle(r@),
    {
        let r = Peer {
            address,
            used_remote_shares: Vec::new(),
            used_shares: Vec::new(),
            shutdown_tx,
            notification_tx,
        };
        proof {
            crate::table::lemma_set_empty(name_views(r.used_shares@));
            crate::table::lemma_set_empty(full_name_views(r.used_remote_shares@));
        }
        r
    }
}

/// A local directory offered to peers under a common name.
#[derive(Debug)]
pub struct Share {
    pub name: CommonShareName,
    pub path: String,
    participants: Vec<PeerId>,
}

impl View for Share {
    type V = ShareView;

    closed spec fn view(&self) -> ShareView {
        ShareView { path: self.path@, participants: set_of(id_views(self.participants@)) }
    }
}

impl Share {
    /// The text of the share's name.
    pub closed spec fn key(&self) -> Seq<char> {
        self.name@
    }

    pub closed spec fn wf(&self) -> bool {
        distinct(id_views(self.participants@))
    }

    /// A share with no participants.
    pub fn new(name: CommonShareName, path: String) -> (r: Share)
        ensures
            r.wf(),
            r.key() == name@,
            r@ == (ShareView { path: path@, participants: Set::empty() }),
    {
        let r = Share { name, path, participants: Vec::new() };
        proof {
            crate::table::lemma_set_empty(id_views(r.participants@));
        }
        r
    }

    /// The participants, by increasing id.
    pub fn participants(&self) -> (r: Vec<PeerId>)
        requires
            self.wf(),
        ensures
            distinct(id_views(r@)),
            ids_ascending(r@),
            set_of(id_views(r@)) == self@.participants,
    {
        let ghost all = id_views(self.participants@);
        let mut r: Vec<PeerId> = Vec::new();
        let mut i: usize = 0;
        while i < self.participants.len()
            invariant
                self.wf(),
                all == id_views(self.participants@),
                i <= self.participants@.len(),
                ids_ascending(r@),
                set_of(id_views(r@)) == set_of(all.take(i as int)),
            decreases self.participants@.len() - i,
        {
            let id = self.participants[i];
            let mut p: usize = 0;
            while p < r.len() && r[p].0 < id.0
                invariant
                    p <= r@.len(),
                    forall|j: int| 0 <= j < p ==> r@[j].0 < id.0,
                decreases r@.len() - p,
            {
                p = p + 1;
            }
            let ghost old_r = r@;
            proof {
                assert(all[i as int] == id.0);
                assert(!set_of(all.take(i as int)).contains(id.0)) by {
                    if set_of(all.take(i as int)).contains(id.0) {
                        let j = choose|j: int| 0 <= j < all.take(i as int).len() && all.take(i as int)[j] == id.0;
                        assert(all[j] == all[i as int]);
                    }
                }
                assert forall|j: int| 0 <= j < old_r.len() implies old_r[j].0 != id.0 by {
                    assert(id_views(old_r)[j] == old_r[j].0);
                    assert(set_of(id_views(old_r)).contains(old_r[j].0));
                }
                crate::table::lemma_set_push(all.take(i as int), id.0);
                assert(all.take(i + 1) =~= all.take(i as int).push(id.0));
            }
            r.insert(p, id);
            proof {
                assert(id_views(r@) =~= id_views(old_r).insert(p as int, id.0));
                crate::table::lemma_set_insert_at(id_views(old_r), p as int, id.0);
                assert forall|a: int, b: int| 0 <= a < b < r@.len() implies r@[a].0 < r@[b].0 by {
                    if b < p {
                        assert(r@[a] == old_r[a] && r@[b] == old_r[b]);
                    } else if b == p {
                        assert(r@[a] == old_r[a]);
                    } else if a < p {
                        assert(r@[a] == old_r[a] && r@[b] == old_r[b - 1]);
                        assert(old_r[p as int].0 >= id.0);
                    } else if a == p {
                        assert(r@[b] == old_r[b - 1]);
                        assert(old_r[p as int].0 >= id.0);
                    } else {
                        assert(r@[a] == old_r[a - 1] && r@[b] == old_r[b - 1]);
                    }
                }
            }
            i = i + 1;
        }
        proof {
            assert(all.take(i as int) =~= all);
            assert forall|a: int, b: int| 0 <= a < r@.len() && 0 <= b < r@.len() && a != b
                implies id_views(r@)[a] != id_views(r@)[b] by {
                if a < b {
                    assert(r@[a].0 < r@[b].0);
                } else {
                    assert(r@[b].0 < r@[a].0);
                }
            }
        }
        r
    }
}

/// A share of another host mounted here.
#[derive(Clone, Debug)]
pub struct RemoteShare {
    owner: PeerId,
    pub name: CommonShareName,
    pub mount_path: String,
}

impl View for RemoteShare {
    type V = RemoteShareView;

    closed spec fn view(&self) -> RemoteShareView {
        RemoteShareView { owner: self.owner.0, name: self.name@, mount_path: self.mount_path@ }
    }
}

#[derive(Clone, Copy, Debug, PartialEq, Eq, Structural)]
pub struct ShareDoesntExistError;

#[derive(Clone, Copy, Debug, PartialEq, Eq, Structural)]
pub struct PeerDoesntExistError;

#[derive(Clone, Copy, Debug, PartialEq, Eq, Structural)]
pub struct RepeatedPeerError;

#[derive(Clone, Copy, Debug, PartialEq, Eq, Structural)]
pub struct PeerNotUsingShareError;

#[derive(Clone, Copy, Debug, PartialEq, Eq, Structural)]
pub struct RepeatedRemoteShareError;

#[derive(Clone, Copy, Debug, PartialEq, Eq, Structural)]
pub struct NoSuchRemoteShareError;

#[derive(Clone, Copy, Debug, PartialEq, Eq, Structural)]
pub struct RepeatedShare;

#[derive(Clone, Copy, Debug, PartialEq, Eq, Structural)]
pub enum NewPeerConnectedToShareError {
    RepeatedPeer(RepeatedPeerError),
    ShareDoesntExist(ShareDoesntExistError),
}

#[derive(Clone, Copy, Debug, PartialEq, Eq, Structural)]
pub enum PeerConnectedToShareError {
    PeerDoesntExist(PeerDoesntExistError),
    ShareDoesntExist(ShareDoesntExistError),
}

#[derive(Clone, Copy, Debug, PartialEq, Eq, Structural)]
pub enum PeerDisconnectedFromShareError {
    PeerNotUsingShare(PeerNotUsingShareError),
    ShareDoesntExist(ShareDoesntExistError),
}

#[derive(Clone, Copy, Debug, PartialEq, Eq, Structural)]
pub enum KickPeerFromShareError {
    PeerNotUsingShare(PeerNotUsingShareError),
    ShareDoesntExist(ShareDoesntExistError),
}

#[derive(Clone, Copy, Debug, PartialEq, Eq, Structural)]
pub enum ExitPeerShareError {
    NoSuchConnectionError(NoSuchRemoteShareError),
}

/// Peers, shares and remote shares of one daemon.
pub struct State {
    next_peer_id: u32,
    peers: Vec<(PeerId, Peer)>,
    peers_by_socket: Vec<(PeerSocket, PeerId)>,
    shares: Vec<Share>,
    remote_shares: Vec<(FullShareName, RemoteShare)>,
    signals: Ghost<Seq<Signal>>,
}

pub closed spec fn peer_entries(s: Seq<(PeerId, Peer)>) -> Seq<(u32, PeerView)> {
    s.map_values(|e: (PeerId, Peer)| (e.0.0, e.1@))
}

pub closed spec fn socket_entries(s: Seq<(PeerSocket, PeerId)>) -> Seq<(PeerSocket, u32)> {
    s.map_values(|e: (PeerSocket, PeerId)| (e.0, e.1.0))
}

pub closed spec fn share_entries(s: Seq<Share>) -> Seq<(Seq<char>, ShareView)> {
    s.map_values(|e: Share| (e.name@, e@))
}

pub closed spec fn remote_entries(s: Seq<(FullShareName, RemoteShare)>) -> Seq<(FullKey, RemoteShareView)> {
    s.map_values(|e: (FullShareName, RemoteShare)| (e.0@, e.1@))
}

/// Position of a counter value after `k` wrapping increments.
pub open spec fn wrap_id(v: int) -> u32 {
    (v % 0x1_0000_0000) as u32
}

impl View for State {
    type V = StateView;

    closed spec fn view(&self) -> StateView {
        StateView {
            next_peer_id: self.next_peer_id,
            peers: table(peer_entries(self.peers@)),
            peers_by_socket: table(socket_entries(self.peers_by_socket@)),
            shares: table(share_entries(self.shares@)),
            remote_shares: table(remote_entries(self.remote_shares@)),
            signals: self.signals@,
        }
    }
}

impl State {
    pub closed spec fn wf(&self) -> bool {
        &&& self.wf_tables()
        &&& membership_invariant(self@)
    }

    closed spec fn wf_tables(&self) -> bool {
        &&& unique_keys(peer_entries(self.peers@))
        &&& unique_keys(socket_entries(self.peers_by_socket@))
        &&& unique_keys(share_entries(self.shares@))
        &&& unique_keys(remote_entries(self.remote_shares@))
        &&& forall|i: int| 0 <= i < self.peers@.len() ==> (#[trigger] self.peers@[i]).1.wf()
        &&& forall|i: int| 0 <= i < self.shares@.len() ==> (#[trigger] self.shares@[i]).wf()
    }

    /// A well-formed state satisfies the membership invariants.
    pub proof fn lemma_invariant(&self)
        requires
            self.wf(),
        ensures
            membership_invariant(self@),
    {
    }

    /// An empty state.
    pub fn new() -> (r: State)
        ensures
            r.wf(),
            r@.next_peer_id == 0,
            r@.peers == Map::<u32, PeerView>::empty(),
            r@.peers_by_socket == Map::<PeerSocket, u32>::empty(),
            r@.shares == Map::<Seq<char>, ShareView>::empty(),
            r@.remote_shares == Map::<FullKey, RemoteShareView>::empty(),
            r@.signals == Seq::<Signal>::empty(),
    {
        let r = State {
            next_peer_id: 0,
            peers: Vec::new(),
            peers_by_socket: Vec::new(),
            shares: Vec::new(),
            remote_shares: Vec::new(),
            signals: Ghost(Seq::empty()),
        };
        proof {
            crate::table::lemma_table_empty(peer_entries(r.peers@));
            crate::table::lemma_table_empty(socket_entries(r.peers_by_socket@));
            crate::table::lemma_table_empty(share_entries(r.shares@));
            crate::table::lemma_table_empty(remote_entries(r.remote_shares@));
        }
        r
    }

    /// Number of live peers.
    pub closed spec fn spec_peer_count(&self) -> nat {
        self.peers@.len()
    }

    /// Number of live peers; a new peer needs an id, of which there are 2^32.
    pub fn peer_count(&self) -> (r: usize)
        ensures
            r == self.spec_peer_count(),
    {
        self.peers.len()
    }

    fn find_peer(&self, id: PeerId) -> (r: Option<usize>)
        requires
            self.wf_tables(),
        ensures
            match r {
                Some(i) => i < self.peers@.len() && self.peers@[i as int].0 == id
                    && self@.peers.contains_key(id.0) && self@.peers[id.0] == self.peers@[i as int].1@,
                None => !self@.peers.contains_key(id.0),
            },
    {
        let mut i: usize = 0;
        while i < self.peers.len()
            invariant
                self.wf_tables(),
                i <= self.peers@.len(),
                forall|j: int| 0 <= j < i ==> self.peers@[j].0 != id,
            decreases self.peers@.len() - i,
        {
            if self.peers[i].0 == id {
                proof {
                    crate::table::lemma_table_index(peer_entries(self.peers@), i as int);
                }
                return Some(i);
            }
            i = i + 1;
        }
        proof {
            let e = peer_entries(self.peers@);
            assert forall|j: int| 0 <= j < e.len() implies e[j].0 != id.0 by {
                assert(self.peers@[j].0 != id);
            }
        }
        None
    }

    fn find_socket(&self, a: PeerSocket) -> (r: Option<usize>)
        requires
            self.wf_tables(),
        ensures
            match r {
                Some(i) => i < self.peers_by_socket@.len() && self.peers_by_socket@[i as int].0 == a
                    && self@.peers_by_socket.contains_key(a)
                    && self@.peers_by_socket[a] == self.peers_by_socket@[i as int].1.0,
                None => !self@.peers_by_socket.contains_key(a),
            },
    {
        let mut i: usize = 0;
        while i < self.peers_by_socket.len()
            invariant
                self.wf_tables(),
                i <= self.peers_by_socket@.len(),
                forall|j: int| 0 <= j < i ==> self.peers_by_socket@[j].0 != a,
            decreases self.peers_by_socket@.len() - i,
        {
            if self.peers_by_socket[i].0 == a {
                proof {
                    crate::table::lemma_table_index(socket_entries(self.peers_by_socket@), i as int);
                }
                return Some(i);
            }
            i = i + 1;
        }
        None
    }

    fn find_share(&self, n: &CommonShareName) -> (r: Option<usize>)
        requires
            self.wf_tables(),
        ensures
            match r {
                Some(i) => i < self.shares@.len() && self.shares@[i as int].name@ == n@
                    && self@.shares.contains_key(n@) && self@.shares[n@] == self.shares@[i as int]@,
                None => !self@.shares.contains_key(n@),
            },
    {
        let mut i: usize = 0;
        while i < self.shares.len()
            invariant
                self.wf_tables(),
                i <= self.shares@.len(),
                forall|j: int| 0 <= j < i ==> self.shares@[j].name@ != n@,
            decreases self.shares@.len() - i,
        {
            if self.shares[i].name.same(n) {
                proof {
                    crate::table::lemma_table_index(share_entries(self.shares@), i as int);
                }
                return Some(i);
            }
            i = i + 1;
        }
        None
    }

    fn find_remote(&self, f: &FullShareName) -> (r: Option<usize>)
        requires
            self.wf_tables(),
        ensures
            match r {
                Some(i) => i < self.remote_shares@.len() && self.remote_shares@[i as int].0@ == f@
                    && self@.remote_shares.contains_key(f@)
                    && self@.remote_shares[f@] == self.remote_shares@[i as int].1@,
                None => !self@.remote_shares.contains_key(f@),
            },
    {
        let mut i: usize = 0;
        while i < self.remote_shares.len()
            invariant
                self.wf_tables(),
                i <= self.remote_shares@.len(),
                forall|j: int| 0 <= j < i ==> self.remote_shares@[j].0@ != f@,
            decreases self.remote_shares@.len() - i,
        {
            if self.remote_shares[i].0.same(f) {
                proof {
                    crate::table::lemma_table_index(remote_entries(self.remote_shares@), i as int);
                }
                return Some(i);
            }
            i = i + 1;
        }
        None
    }

    /// Advances the id counter, wrapping around, to the first id that no
    /// peer holds.
    fn fresh_peer_id(&mut self) -> (r: PeerId)
        requires
            old(self).wf(),
            old(self).spec_peer_count() < 0xFFFF_FFFF,
        ensures
            final(self).wf(),
            final(self)@ == (StateView { next_peer_id: final(self)@.next_peer_id, ..old(self)@ }),
            final(self).peers@ == old(self).peers@,
            final(self).peers_by_socket@ == old(self).peers_by_socket@,
            final(self).shares@ == old(self).shares@,
            final(self).remote_shares@ == old(self).remote_shares@,
            !old(self)@.peers.contains_key(r.0),
    {
        let ghost start = self.next_peer_id as int;
        let ghost keys = peer_entries(self.peers@).map_values(|e: (u32, PeerView)| e.0);
        let ghost mut tried: Set<u32> = Set::empty();
        let mut tries: usize = 0;
        proof {
            keys.lemma_cardinality_of_set();
            vstd::seq_lib::seq_to_set_is_finite(keys);
        }
        loop
            invariant
                old(self).wf(),
                self.wf(),
                self@ == (StateView { next_peer_id: self.next_peer_id, ..old(self)@ }),
                self.peers@ == old(self).peers@,
                self.peers_by_socket@ == old(self).peers_by_socket@,
                self.shares@ == old(self).shares@,
                self.remote_shares@ == old(self).remote_shares@,
                keys == peer_entries(self.peers@).map_values(|e: (u32, PeerView)| e.0),
                keys.to_set().finite(),
                keys.to_set().len() <= keys.len(),
                keys.len() == self.peers@.len(),
                self.peers@.len() < 0xFFFF_FFFF,
                tries <= self.peers@.len(),
                tried.finite(),
                tried.len() == tries,
                tried.subset_of(keys.to_set()),
                self.next_peer_id == wrap_id(start + tries),
                forall|x: u32| #[trigger] tried.contains(x) ==> exists|j: int| 0 <= j < tries && x == #[trigger] wrap_id(start + j),
                0 <= start < 0x1_0000_0000,
            decreases self.peers@.len() - tries,
        {
            let id = self.next_peer_id;
            self.next_peer_id = id.wrapping_add(1);
            proof {
                assert(self.next_peer_id == wrap_id(start + tries + 1));
                assert(self@ == (StateView { next_peer_id: self.next_peer_id, ..old(self)@ }));
                assert(membership_invariant(old(self)@));
                assert(membership_invariant(self@)) by {
                    assert(self@.peers == old(self)@.peers);
                    assert(self@.shares == old(self)@.shares);
                    assert(self@.remote_shares == old(self)@.remote_shares);
                    assert(self@.peers_by_socket == old(self)@.peers_by_socket);
                }
            }
            match self.find_peer(PeerId(id)) {
                None => {
                    return PeerId(id);
                },
                Some(i) => {
                    proof {
                        assert(!tried.contains(id)) by {
                            if tried.contains(id) {
                                let j = choose|j: int| 0 <= j < tries && id == #[trigger] wrap_id(start + j);
                                assert(wrap_id(start + j) == wrap_id(start + tries));
                                assert(false);
                            }
                        }
                        assert(keys[i as int] == id);
                        assert(keys.to_set().contains(id));
                        let before = tried;
                        tried = tried.insert(id);
                        assert(tried.len() == before.len() + 1);
                        vstd::set_lib::lemma_len_subset(tried, keys.to_set());
                        assert forall|x: u32| #[trigger] tried.contains(x)
                            implies exists|j: int| 0 <= j < tries + 1 && x == #[trigger] wrap_id(start + j) by {
                            if x == id {
                                assert(id == wrap_id(start + tries));
                            } else {
                                assert(before.contains(x));
                            }
                        }
                    }
                    tries = tries + 1;
                },
            }
        }
    }

    /// Offers a new local share.
    pub fn add_share(&mut self, share: Share) -> (r: Result<(), RepeatedShare>)
        requires
            old(self).wf(),
            share.wf(),
            share@.participants == Set::<u32>::empty(),
        ensures
            final(self).wf(),
            match r {
                Ok(()) => !old(self)@.shares.contains_key(share.key())
                    && final(self)@ == add_share_model(old(self)@, share.key(), share@.path),
                Err(_) => old(self)@.shares.contains_key(share.key()) && final(self)@ == old(self)@,
            },
    {
        if self.find_share(&share.name).is_some() {
            return Err(RepeatedShare);
        }
        let ghost old_entries = share_entries(self.shares@);
        let ghost n = share.name@;
        let ghost sv = share@;
        self.shares.push(share);
        proof {
            crate::table::lemma_table_push(old_entries, n, sv);
            assert(share_entries(self.shares@) =~= old_entries.push((n, sv)));
            crate::model::lemma_add_share(old(self)@, n, sv.path);
            assert(self@ == add_share_model(old(self)@, n, sv.path));
        }
        Ok(())
    }

    /// Registers a brand-new peer bound to one local share.
    pub fn new_peer_connected_to_share(
        &mut self,
        peer: Peer,
        share_name: CommonShareName,
    ) -> (r: Result<PeerId, NewPeerConnectedToShareError>)
        requires
            old(self).wf(),
            old(self).spec_peer_count() < 0xFFFF_FFFF,
            peer.wf(),
            idle(peer@),
        ensures
            final(self).wf(),
            match r {
                Err(NewPeerConnectedToShareError::RepeatedPeer(_)) =>
                    old(self)@.peers_by_socket.contains_key(peer@.address) && final(self)@ == old(self)@,
                Err(NewPeerConnectedToShareError::ShareDoesntExist(_)) =>
                    !old(self)@.peers_by_socket.contains_key(peer@.address)
                    && !old(self)@.shares.contains_key(share_name@) && final(self)@ == old(self)@,
                Ok(id) => !old(self)@.peers_by_socket.contains_key(peer@.address)
                    && old(self)@.shares.contains_key(share_name@)
                    && !old(self)@.peers.contains_key(id.0)
                    && final(self)@ == new_peer_model(old(self)@, id.0, final(self)@.next_peer_id, peer@.address, share_name@),
            },
    {
        if self.find_socket(peer.address).is_some() {
            return Err(NewPeerConnectedToShareError::RepeatedPeer(RepeatedPeerError));
        }
        let si = match self.find_share(&share_name) {
            Some(i) => i,
            None => return Err(NewPeerConnectedToShareError::ShareDoesntExist(ShareDoesntExistError)),
        };
        let ghost v0 = self@;
        let id = self.fresh_peer_id();
        let ghost v1 = self@;
        let ghost n = share_name@;
        let mut peer = peer;
        proof {
            crate::table::lemma_set_empty(name_views(peer.used_shares@));
            crate::table::lemma_set_push(name_views(peer.used_shares@), n);
            assert(name_views(peer.used_shares@).push(n) =~= name_views(peer.used_shares@.push(share_name)));
        }
        peer.used_shares.push(share_name);
        let address = peer.address;
        let ghost pv = peer@;
        let ghost old_sockets = socket_entries(self.peers_by_socket@);
        self.peers_by_socket.push((address, id));
        proof {
            crate::table::lemma_table_push(old_sockets, address, id.0);
            assert(socket_entries(self.peers_by_socket@) =~= old_sockets.push((address, id.0)));
        }
        let ghost old_peers = peer_entries(self.peers@);
        self.peers.push((id, peer));
        proof {
            crate::table::lemma_table_push(old_peers, id.0, pv);
            assert(peer_entries(self.peers@) =~= old_peers.push((id.0, pv)));
        }
        let ghost old_shares = share_entries(self.shares@);
        let ghost old_parts = id_views(self.shares@[si as int].participants@);
        proof {
            assert(!set_of(old_parts).contains(id.0)) by {
                if set_of(old_parts).contains(id.0) {
                    assert(v1.shares[n].participants.contains(id.0));
                }
            }
            crate::table::lemma_set_push(old_parts, id.0);
        }
        self.shares[si].participants.push(id);
        proof {
            assert(id_views(self.shares@[si as int].participants@) =~= old_parts.push(id.0));
            crate::table::lemma_table_update(old_shares, si as int, self.shares@[si as int]@);
            assert(share_entries(self.shares@) =~= old_shares.update(si as int, (n, self.shares@[si as int]@)));
            assert forall|i: int| 0 <= i < self.peers@.len() implies (#[trigger] self.peers@[i]).1.wf() by {
                if i < old_peers.len() {
                    assert(self.peers@[i] == old(self).peers@[i]);
                }
            }
            assert forall|i: int| 0 <= i < self.shares@.len() implies (#[trigger] self.shares@[i]).wf() by {
                if i != si {
                    assert(self.shares@[i] == old(self).shares@[i]);
                }
            }
            crate::model::lemma_new_peer(v0, id.0, self.next_peer_id, address, n);
            assert(self@ == new_peer_model(v0, id.0, self.next_peer_id, address, n));
        }
        Ok(id)
    }

    /// Adds one more share edge to an existing peer. Adding an edge that
    /// exists changes nothing.
    pub fn peer_connected_to_share(
        &mut self,
        peer_id: PeerId,
        share_name: CommonShareName,
    ) -> (r: Result<(), PeerConnectedToShareError>)
        requires
            old(self).wf(),
        ensures
            final(self).wf(),
            match r {
                Err(PeerConnectedToShareError::ShareDoesntExist(_)) =>
                    !old(self)@.shares.contains_key(share_name@) && final(self)@ == old(self)@,
                Err(PeerConnectedToShareError::PeerDoesntExist(_)) =>
                    old(self)@.shares.contains_key(share_name@) && !old(self)@.peers.contains_key(peer_id.0)
                    && final(self)@ == old(self)@,
                Ok(()) => old(self)@.shares.contains_key(share_name@) && old(self)@.peers.contains_key(peer_id.0)
                    && final(self)@ == connect_model(old(self)@, peer_id.0, share_name@),
            },
    {
        let si = match self.find_share(&share_name) {
            Some(i) => i,
            None => return Err(PeerConnectedToShareError::ShareDoesntExist(ShareDoesntExistError)),
        };
        let pi = match self.find_peer(peer_id) {
            Some(i) => i,
            None => return Err(PeerConnectedToShareError::PeerDoesntExist(PeerDoesntExistError)),
        };
        let ghost v0 = self@;
        let ghost n = share_name@;
        let ghost id = peer_id.0;
        proof {
            crate::model::lemma_connect(v0, id, n);
        }
        if let Some(k) = position_name(&self.peers[pi].1.used_shares, &share_name) {
            proof {
                assert(name_views(self.peers@[pi as int].1.used_shares@)[k as int] == n);
                assert(v0.peers[id].used_shares.contains(n));
                assert(v0.shares[n].participants.contains(id));
                assert(v0.peers[id].used_shares.insert(n) =~= v0.peers[id].used_shares);
                assert(v0.shares[n].participants.insert(id) =~= v0.shares[n].participants);
                assert(connect_model(v0, id, n).peers =~= v0.peers);
                assert(connect_model(v0, id, n).shares =~= v0.shares);
            }
            return Ok(());
        }
        proof {
            assert(!v0.shares[n].participants.contains(id));
        }
        let ghost old_names = name_views(self.peers@[pi as int].1.used_shares@);
        let ghost old_peers = peer_entries(self.peers@);
        proof {
            crate::table::lemma_set_push(old_names, n);
        }
        self.peers[pi].1.used_shares.push(share_name);
        proof {
            assert(name_views(self.peers@[pi as int].1.used_shares@) =~= old_names.push(n));
            crate::table::lemma_table_update(old_peers, pi as int, self.peers@[pi as int].1@);
            assert(peer_entries(self.peers@) =~= old_peers.update(pi as int, (id, self.peers@[pi as int].1@)));
        }
        let ghost old_parts = id_views(self.shares@[si as int].participants@);
        let ghost old_shares = share_entries(self.shares@);
        proof {
            crate::table::lemma_set_push(old_parts, id);
        }
        self.shares[si].participants.push(peer_id);
        proof {
            assert(id_views(self.shares@[si as int].participants@) =~= old_parts.push(id));
            crate::table::lemma_table_update(old_shares, si as int, self.shares@[si as int]@);
            assert(share_entries(self.shares@) =~= old_shares.update(si as int, (n, self.shares@[si as int]@)));
            assert forall|i: int| 0 <= i < self.peers@.len() implies (#[trigger] self.peers@[i]).1.wf() by {
                if i != pi {
                    assert(self.peers@[i] == old(self).peers@[i]);
                }
            }
            assert forall|i: int| 0 <= i < self.shares@.len() implies (#[trigger] self.shares@[i]).wf() by {
                if i != si {
                    assert(self.shares@[i] == old(self).shares@[i]);
                }
            }
            assert(self@ == connect_model(v0, id, n));
        }
        Ok(())
    }

    /// Removes the edge between the peer at `pi` and the share at `si`.
    fn unbind(&mut self, pi: usize, si: usize, peer_id: PeerId, share_name: &CommonShareName)
        requires
            old(self).wf(),
            pi < old(self).peers@.len(),
            si < old(self).shares@.len(),
            old(self).peers@[pi as int].0 == peer_id,
            old(self).shares@[si as int].name@ == share_name@,
            old(self)@.shares[share_name@].participants.contains(peer_id.0),
        ensures
            final(self).wf_tables(),
            final(self)@ == unbind_model(old(self)@, peer_id.0, share_name@),
            final(self).peers@.len() == old(self).peers@.len(),
            final(self).peers@[pi as int].0 == peer_id,
    {
        let ghost v0 = self@;
        let ghost n = share_name@;
        let ghost id = peer_id.0;
        proof {
            crate::table::lemma_table_index(peer_entries(self.peers@), pi as int);
            crate::table::lemma_table_index(share_entries(self.shares@), si as int);
        }
        let k = match position_name(&self.peers[pi].1.used_shares, share_name) {
            Some(k) => k,
            None => {
                proof {
                    assert(v0.peers[id].used_shares.contains(n));
                }
                return;
            },
        };
        let ghost old_names = name_views(self.peers@[pi as int].1.used_shares@);
        let ghost old_peers = peer_entries(self.peers@);
        proof {
            crate::table::lemma_set_remove(old_names, k as int);
        }
        self.peers[pi].1.used_shares.remove(k);
        proof {
            assert(name_views(self.peers@[pi as int].1.used_shares@) =~= old_names.remove(k as int));
            crate::table::lemma_table_update(old_peers, pi as int, self.peers@[pi as int].1@);
            assert(peer_entries(self.peers@) =~= old_peers.update(pi as int, (id, self.peers@[pi as int].1@)));
        }
        let j = match position_id(&self.shares[si].participants, peer_id) {
            Some(j) => j,
            None => {
                return;
            },
        };
        let ghost old_parts = id_views(self.shares@[si as int].participants@);
        let ghost old_shares = share_entries(self.shares@);
        proof {
            crate::table::lemma_set_remove(old_parts, j as int);
        }
        self.shares[si].participants.remove(j);
        proof {
            assert(id_views(self.shares@[si as int].participants@) =~= old_parts.remove(j as int));
            crate::table::lemma_table_update(old_shares, si as int, self.shares@[si as int]@);
            assert(share_entries(self.shares@) =~= old_shares.update(si as int, (n, self.shares@[si as int]@)));
            assert forall|i: int| 0 <= i < self.peers@.len() implies (#[trigger] self.peers@[i]).1.wf() by {
                if i != pi {
                    assert(self.peers@[i] == old(self).peers@[i]);
                }
            }
            assert forall|i: int| 0 <= i < self.shares@.len() implies (#[trigger] self.shares@[i]).wf() by {
                if i != si {
                    assert(self.shares@[i] == old(self).shares@[i]);
                }
            }
            assert(self@ == unbind_model(v0, id, n));
        }
    }

    /// Try-drop: removes the peer at `pi` from both indices and signals its
    /// cancellation handle when it has no edge left.
    fn try_drop_peer(&mut self, pi: usize, peer_id: PeerId)
        requires
            old(self).wf_tables(),
            crate::model::sockets_indexed(old(self)@),
            pi < old(self).peers@.len(),
            old(self).peers@[pi as int].0 == peer_id,
        ensures
            final(self).wf_tables(),
            final(self)@ == drop_if_idle(old(self)@, peer_id.0),
    {
        let ghost v0 = self@;
        let ghost id = peer_id.0;
        proof {
            crate::table::lemma_table_index(peer_entries(self.peers@), pi as int);
            crate::table::lemma_set_empty(name_views(self.peers@[pi as int].1.used_shares@));
            crate::table::lemma_set_empty(full_name_views(self.peers@[pi as int].1.used_remote_shares@));
        }
        if self.peers[pi].1.used_shares.len() != 0 || self.peers[pi].1.used_remote_shares.len() != 0 {
            return;
        }
        let address = self.peers[pi].1.address;
        let ghost old_peers = peer_entries(self.peers@);
        let removed = self.peers.remove(pi);
        proof {
            crate::table::lemma_table_remove(old_peers, pi as int);
            assert(peer_entries(self.peers@) =~= old_peers.remove(pi as int));
            assert forall|i: int| 0 <= i < self.peers@.len() implies (#[trigger] self.peers@[i]).1.wf() by {
                if i < pi {
                    assert(self.peers@[i] == old(self).peers@[i]);
                } else {
                    assert(self.peers@[i] == old(self).peers@[i + 1]);
                }
            }
        }
        match self.find_socket(address) {
            Some(k) => {
                let ghost old_sockets = socket_entries(self.peers_by_socket@);
                self.peers_by_socket.remove(k);
                proof {
                    crate::table::lemma_table_remove(old_sockets, k as int);
                    assert(socket_entries(self.peers_by_socket@) =~= old_sockets.remove(k as int));
                }
            },
            None => {
                proof {
                    assert(v0.peers_by_socket.contains_key(v0.peers[id].address));
                }
            },
        }
        send_ignoring_failure(&removed.1.shutdown_tx, ());
        proof {
            self.signals@ = self.signals@.push(Signal::PeerShutdown(id));
            assert(self@ == drop_if_idle(v0, id));
        }
    }

    /// Removes the edge between a peer and a share; the peer goes when it
    /// has no edge left.
    pub fn peer_disconnected_from_share(
        &mut self,
        peer_id: PeerId,
        share_name: CommonShareName,
    ) -> (r: Result<(), PeerDisconnectedFromShareError>)
        requires
            old(self).wf(),
            old(self)@.peers.contains_key(peer_id.0),
        ensures
            final(self).wf(),
            match r {
                Err(PeerDisconnectedFromShareError::ShareDoesntExist(_)) =>
                    !old(self)@.shares.contains_key(share_name@) && final(self)@ == old(self)@,
                Err(PeerDisconnectedFromShareError::PeerNotUsingShare(_)) =>
                    old(self)@.shares.contains_key(share_name@)
                    && !old(self)@.shares[share_name@].participants.contains(peer_id.0)
                    && final(self)@ == old(self)@,
                Ok(()) => old(self)@.shares.contains_key(share_name@)
                    && old(self)@.shares[share_name@].participants.contains(peer_id.0)
                    && final(self)@ == disconnect_model(old(self)@, peer_id.0, share_name@),
            },
    {
        let si = match self.find_share(&share_name) {
            Some(i) => i,
            None => return Err(PeerDisconnectedFromShareError::ShareDoesntExist(ShareDoesntExistError)),
        };
        match position_id(&self.shares[si].participants, peer_id) {
            None => return Err(PeerDisconnectedFromShareError::PeerNotUsingShare(PeerNotUsingShareError)),
            Some(k) => {
                proof {
                    assert(id_views(self.shares@[si as int].participants@)[k as int] == peer_id.0);
                }
            },
        }
        let pi = match self.find_peer(peer_id) {
            Some(i) => i,
            None => return Err(PeerDisconnectedFromShareError::ShareDoesntExist(ShareDoesntExistError)),
        };
        let ghost v0 = self@;
        self.unbind(pi, si, peer_id, &share_name);
        self.try_drop_peer(pi, peer_id);
        proof {
            crate::model::lemma_disconnect(v0, peer_id.0, share_name@);
        }
        Ok(())
    }

    /// Like [`State::peer_disconnected_from_share`], and tells the peer
    /// with `KickedFromShare` before the try-drop.
    pub fn kick_peer_from_share(
        &mut self,
        peer_id: PeerId,
        share_name: CommonShareName,
    ) -> (r: Result<(), KickPeerFromShareError>)
        requires
            old(self).wf(),
            old(self)@.peers.contains_key(peer_id.0),
        ensures
            final(self).wf(),
            match r {
                Err(KickPeerFromShareError::ShareDoesntExist(_)) =>
                    !old(self)@.shares.contains_key(share_name@) && final(self)@ == old(self)@,
                Err(KickPeerFromShareError::PeerNotUsingShare(_)) =>
                    old(self)@.shares.contains_key(share_name@)
                    && !old(self)@.shares[share_name@].participants.contains(peer_id.0)
                    && final(self)@ == old(self)@,
                Ok(()) => old(self)@.shares.contains_key(share_name@)
                    && old(self)@.shares[share_name@].participants.contains(peer_id.0)
                    && final(self)@ == kick_model(old(self)@, peer_id.0, share_name@),
            },
    {
        let si = match self.find_share(&share_name) {
            Some(i) => i,
            None => return Err(KickPeerFromShareError::ShareDoesntExist(ShareDoesntExistError)),
        };
        match position_id(&self.shares[si].participants, peer_id) {
            None => return Err(KickPeerFromShareError::PeerNotUsingShare(PeerNotUsingShareError)),
            Some(k) => {
                proof {
                    assert(id_views(self.shares@[si as int].participants@)[k as int] == peer_id.0);
                }
            },
        }
        let pi = match self.find_peer(peer_id) {
            Some(i) => i,
            None => return Err(KickPeerFromShareError::ShareDoesntExist(ShareDoesntExistError)),
        };
        let ghost v0 = self@;
        let ghost n = share_name@;
        self.unbind(pi, si, peer_id, &share_name);
        send_ignoring_failure(&self.peers[pi].1.notification_tx, StateNotification::KickedFromShare(share_name));
        proof {
            self.signals@ = self.signals@.push(Signal::Kicked(peer_id.0, n));
        }
        self.try_drop_peer(pi, peer_id);
        proof {
            crate::model::lemma_kick(v0, peer_id.0, n);
        }
        Ok(())
    }

    /// The shutdown predicate: with no peer and no share left, signals the
    /// server to stop.
    pub fn should_server_close(&mut self, shutdown_tx: &async_broadcast::Sender<()>)
        requires
            old(self).wf(),
        ensures
            final(self).wf(),
            final(self)@ == close_check(old(self)@),
    {
        proof {
            crate::table::lemma_table_dom_empty(peer_entries(self.peers@));
            crate::table::lemma_table_dom_empty(share_entries(self.shares@));
        }
        if self.peers.len() == 0 && self.shares.len() == 0 {
            broadcast_ignoring_failure(shutdown_tx, ());
            proof {
                self.signals@ = self.signals@.push(Signal::ServerShutdown);
                assert(self@.peers == old(self)@.peers);
                assert(self@.shares == old(self)@.shares);
                assert(self@.remote_shares == old(self)@.remote_shares);
                assert(self@.peers_by_socket == old(self)@.peers_by_socket);
            }
        }
    }

    /// Removes a local share: every participant is kicked (edge removed,
    /// `KickedFromShare` sent, try-drop), then the shutdown predicate runs.
    pub fn remove_share(
        &mut self,
        name: &CommonShareName,
        shutdown_tx: &async_broadcast::Sender<()>,
    ) -> (r: Result<(), ShareDoesntExistError>)
        requires
            old(self).wf(),
        ensures
            final(self).wf(),
            match r {
                Err(_) => !old(self)@.shares.contains_key(name@) && final(self)@ == old(self)@,
                Ok(()) => old(self)@.shares.contains_key(name@) && exists|order: Seq<u32>|
                    #![trigger remove_share_model(old(self)@, order, name@)]
                    distinct(order) && set_of(order) == old(self)@.shares[name@].participants
                    && final(self)@ == remove_share_model(old(self)@, order, name@),
            },
    {
        let si = match self.find_share(name) {
            Some(i) => i,
            None => return Err(ShareDoesntExistError),
        };
        let ghost v0 = self@;
        let ghost n = name@;
        let order = self.shares[si].participants();
        let ghost ord = id_views(order@);
        let mut k: usize = 0;
        while k < order.len()
            invariant
                self.wf(),
                v0 == old(self)@,
                n == name@,
                membership_invariant(v0),
                v0.shares.contains_key(n),
                k <= order@.len(),
                ord == id_views(order@),
                distinct(ord),
                set_of(ord) == v0.shares[n].participants,
                self@ == kick_all(v0, ord.take(k as int), n),
            decreases order@.len() - k,
        {
            let peer_id = order[k];
            let ghost pre = ord.take(k as int);
            proof {
                assert forall|i: int, j: int| 0 <= i < pre.len() && 0 <= j < pre.len() && i != j implies pre[i] != pre[j] by {
                    assert(pre[i] == ord[i] && pre[j] == ord[j]);
                }
                assert forall|i: int| 0 <= i < pre.len() implies v0.shares[n].participants.contains(#[trigger] pre[i]) by {
                    assert(pre[i] == ord[i]);
                    assert(set_of(ord).contains(ord[i]));
                }
                crate::model::lemma_kick_all(v0, pre, n);
                assert(ord[k as int] == peer_id.0);
                assert(set_of(ord).contains(peer_id.0));
                assert(!set_of(pre).contains(peer_id.0)) by {
                    if set_of(pre).contains(peer_id.0) {
                        let j = choose|j: int| 0 <= j < pre.len() && pre[j] == peer_id.0;
                        assert(ord[j] == ord[k as int]);
                    }
                }
                assert(self@.shares[n].participants.contains(peer_id.0));
                assert(self@.peers.contains_key(peer_id.0));
            }
            let res = self.kick_peer_from_share(peer_id, name.duplicate());
            k = k + 1;
            proof {
                assert(res is Ok);
                let post = ord.take(k as int);
                assert(post.drop_last() =~= pre);
                assert(post.last() == peer_id.0);
            }
        }
        proof {
            assert(ord.take(k as int) =~= ord);
            crate::model::lemma_kick_all(v0, ord, n);
            assert(self@.shares[n].participants =~= Set::<u32>::empty());
            crate::model::lemma_remove_unused_share(self@, n);
        }
        let si = match self.find_share(name) {
            Some(i) => i,
            None => return Ok(()),
        };
        let ghost old_shares = share_entries(self.shares@);
        let ghost before = self.shares@;
        self.shares.remove(si);
        proof {
            crate::table::lemma_table_remove(old_shares, si as int);
            assert(share_entries(self.shares@) =~= old_shares.remove(si as int));
            assert forall|i: int| 0 <= i < self.shares@.len() implies (#[trigger] self.shares@[i]).wf() by {
                if i < si {
                    assert(self.shares@[i] == before[i]);
                } else {
                    assert(self.shares@[i] == before[i + 1]);
                }
            }
        }
        self.should_server_close(shutdown_tx);
        proof {
            assert(self@ == remove_share_model(v0, ord, n));
        }
        Ok(())
    }

    /// Registers a brand-new peer that owns a remote share mounted here.
    /// The peer's address must not be bound yet: a known peer joins more
    /// remote shares through [`State::join_remote_share`].
    pub fn join_remote_share_new(
        &mut self,
        peer: Peer,
        name: FullShareName,
        mount_path: String,
    ) -> (r: Result<PeerId, RepeatedRemoteShareError>)
        requires
            old(self).wf(),
            old(self).spec_peer_count() < 0xFFFF_FFFF,
            peer.wf(),
            idle(peer@),
            !old(self)@.peers_by_socket.contains_key(peer@.address),
        ensures
            final(self).wf(),
            match r {
                Err(_) => old(self)@.remote_shares.contains_key(name@) && final(self)@ == old(self)@,
                Ok(id) => !old(self)@.remote_shares.contains_key(name@)
                    && !old(self)@.peers.contains_key(id.0)
                    && final(self)@ == new_remote_model(old(self)@, id.0, final(self)@.next_peer_id, peer@.address, name@, mount_path@),
            },
    {
        if self.find_remote(&name).is_some() {
            return Err(RepeatedRemoteShareError);
        }
        let ghost v0 = self@;
        let ghost f = name@;
        let ghost mp = mount_path@;
        let id = self.fresh_peer_id();
        let remote = RemoteShare { owner: id, name: name.name.duplicate(), mount_path };
        let mut peer = peer;
        proof {
            crate::table::lemma_set_empty(full_name_views(peer.used_remote_shares@));
            crate::table::lemma_set_push(full_name_views(peer.used_remote_shares@), f);
            assert(full_name_views(peer.used_remote_shares@).push(f) =~= full_name_views(peer.used_remote_shares@.push(name)));
        }
        let key = name.duplicate();
        peer.used_remote_shares.push(name);
        let address = peer.address;
        let ghost pv = peer@;
        let ghost rv = remote@;
        let ghost old_remote = remote_entries(self.remote_shares@);
        self.remote_shares.push((key, remote));
        proof {
            crate::table::lemma_table_push(old_remote, f, rv);
            assert(remote_entries(self.remote_shares@) =~= old_remote.push((f, rv)));
        }
        let ghost old_sockets = socket_entries(self.peers_by_socket@);
        self.peers_by_socket.push((address, id));
        proof {
            crate::table::lemma_table_push(old_sockets, address, id.0);
            assert(socket_entries(self.peers_by_socket@) =~= old_sockets.push((address, id.0)));
        }
        let ghost old_peers = peer_entries(self.peers@);
        let ghost before = self.peers@;
        self.peers.push((id, peer));
        proof {
            crate::table::lemma_table_push(old_peers, id.0, pv);
            assert(peer_entries(self.peers@) =~= old_peers.push((id.0, pv)));
            assert forall|i: int| 0 <= i < self.peers@.len() implies (#[trigger] self.peers@[i]).1.wf() by {
                if i < before.len() {
                    assert(self.peers@[i] == before[i]);
                }
            }
            crate::model::lemma_new_remote(v0, id.0, self.next_peer_id, address, f, mp);
            assert(self@ == new_remote_model(v0, id.0, self.next_peer_id, address, f, mp));
        }
        Ok(id)
    }

    /// Adds a remote share owned by an existing peer.
    pub fn join_remote_share(
        &mut self,
        peer_id: PeerId,
        name: FullShareName,
        mount_path: String,
    ) -> (r: Result<(), RepeatedRemoteShareError>)
        requires
            old(self).wf(),
            old(self)@.peers.contains_key(peer_id.0),
        ensures
            final(self).wf(),
            match r {
                Err(_) => old(self)@.remote_shares.contains_key(name@) && final(self)@ == old(self)@,
                Ok(()) => !old(self)@.remote_shares.contains_key(name@)
                    && final(self)@ == join_remote_model(old(self)@, peer_id.0, name@, mount_path@),
            },
    {
        if self.find_remote(&name).is_some() {
            return Err(RepeatedRemoteShareError);
        }
        let pi = match self.find_peer(peer_id) {
            Some(i) => i,
            None => return Err(RepeatedRemoteShareError),
        };
        let ghost v0 = self@;
        let ghost f = name@;
        let ghost mp = mount_path@;
        let ghost id = peer_id.0;
        let remote = RemoteShare { owner: peer_id, name: name.name.duplicate(), mount_path };
        let key = name.duplicate();
        let ghost rv = remote@;
        let ghost old_remote = remote_entries(self.remote_shares@);
        self.remote_shares.push((key, remote));
        proof {
            crate::table::lemma_table_push(old_remote, f, rv);
            assert(remote_entries(self.remote_shares@) =~= old_remote.push((f, rv)));
        }
        let ghost old_names = full_name_views(self.peers@[pi as int].1.used_remote_shares@);
        let ghost old_peers = peer_entries(self.peers@);
        proof {
            assert(!set_of(old_names).contains(f)) by {
                if set_of(old_names).contains(f) {
                    assert(v0.peers[id].used_remote_shares.contains(f));
                }
            }
            crate::table::lemma_set_push(old_names, f);
        }
        self.peers[pi].1.used_remote_shares.push(name);
        proof {
            assert(full_name_views(self.peers@[pi as int].1.used_remote_shares@) =~= old_names.push(f));
            crate::table::lemma_table_update(old_peers, pi as int, self.peers@[pi as int].1@);
            assert(peer_entries(self.peers@) =~= old_peers.update(pi as int, (id, self.peers@[pi as int].1@)));
            assert forall|i: int| 0 <= i < self.peers@.len() implies (#[trigger] self.peers@[i]).1.wf() by {
                if i != pi {
                    assert(self.peers@[i] == old(self).peers@[i]);
                }
            }
            crate::model::lemma_join_remote(v0, id, f, mp);
            assert(self@ == join_remote_model(v0, id, f, mp));
        }
        Ok(())
    }

    /// Removes a remote share of a peer, runs try-drop on the peer, then
    /// the shutdown predicate.
    pub fn exit_remote_share(
        &mut self,
        peer_id: PeerId,
        remote_share_name: FullShareName,
        shutdown_tx: &async_broadcast::Sender<()>,
    ) -> (r: Result<(), ExitPeerShareError>)
        requires
            old(self).wf(),
            old(self)@.peers.contains_key(peer_id.0),
        ensures
            final(self).wf(),
            match r {
                Err(_) => !old(self)@.peers[peer_id.0].used_remote_shares.contains(remote_share_name@)
                    && final(self)@ == old(self)@,
                Ok(()) => old(self)@.peers[peer_id.0].used_remote_shares.contains(remote_share_name@)
                    && final(self)@ == exit_remote_model(old(self)@, peer_id.0, remote_share_name@),
            },
    {
        let pi = match self.find_peer(peer_id) {
            Some(i) => i,
            None => return Err(ExitPeerShareError::NoSuchConnectionError(NoSuchRemoteShareError)),
        };
        let k = match position_full(&self.peers[pi].1.used_remote_shares, &remote_share_name) {
            Some(k) => k,
            None => return Err(ExitPeerShareError::NoSuchConnectionError(NoSuchRemoteShareError)),
        };
        let ghost v0 = self@;
        let ghost f = remote_share_name@;
        let ghost id = peer_id.0;
        let ghost old_names = full_name_views(self.peers@[pi as int].1.used_remote_shares@);
        let ghost old_peers = peer_entries(self.peers@);
        proof {
            assert(old_names[k as int] == f);
            assert(v0.peers[id].used_remote_shares.contains(f));
            crate::table::lemma_set_remove(old_names, k as int);
        }
        self.peers[pi].1.used_remote_shares.remove(k);
        proof {
            assert(full_name_views(self.peers@[pi as int].1.used_remote_shares@) =~= old_names.remove(k as int));
            crate::table::lemma_table_update(old_peers, pi as int, self.peers@[pi as int].1@);
            assert(peer_entries(self.peers@) =~= old_peers.update(pi as int, (id, self.peers@[pi as int].1@)));
            assert forall|i: int| 0 <= i < self.peers@.len() implies (#[trigger] self.peers@[i]).1.wf() by {
                if i != pi {
                    assert(self.peers@[i] == old(self).peers@[i]);
                }
            }
        }
        match self.find_remote(&remote_share_name) {
            Some(ri) => {
                let ghost old_remote = remote_entries(self.remote_shares@);
                self.remote_shares.remove(ri);
                proof {
                    crate::table::lemma_table_remove(old_remote, ri as int);
                    assert(remote_entries(self.remote_shares@) =~= old_remote.remove(ri as int));
                }
            },
            None => {
                proof {
                    assert(v0.remote_shares.contains_key(f));
                }
            },
        }
        let ghost u = self@;
        proof {
            assert(u == (StateView {
                peers: v0.peers.insert(id, PeerView {
                    used_remote_shares: v0.peers[id].used_remote_shares.remove(f),
                    ..v0.peers[id]
                }),
                remote_shares: v0.remote_shares.remove(f),
                ..v0
            }));
        }
        self.try_drop_peer(pi, peer_id);
        proof {
            crate::model::lemma_exit_remote(v0, id, f);
            assert(membership_invariant(drop_if_idle(u, id)));
        }
        self.should_server_close(shutdown_tx);
        Ok(())
    }

    /// The live peers with their addresses, by increasing id.
    #[verifier::loop_isolation(false)]
    pub fn peers_dto(&self) -> (r: PeersDto)
        requires
            self.wf(),
        ensures
            crate::dto::peers_dto_matches(r, self@.peers),
    {
        let ghost e = peer_entries(self.peers@);
        let ghost m = self@.peers.map_values(|p: PeerView| p.address);
        let ghost ea = e.map_values(|x: (u32, PeerView)| (x.0, x.1.address));
        proof {
            assert forall|a: int, b: int| 0 <= a < ea.len() && 0 <= b < ea.len() && a != b implies ea[a].0 != ea[b].0 by {
                assert(ea[a].0 == e[a].0 && ea[b].0 == e[b].0);
            }
            assert forall|k: u32| #[trigger] table(ea).contains_key(k) == m.contains_key(k) by {
                if table(ea).contains_key(k) {
                    let j = choose|j: int| 0 <= j < ea.len() && ea[j].0 == k;
                    assert(e[j].0 == k);
                }
                if table(e).contains_key(k) {
                    let j = choose|j: int| 0 <= j < e.len() && e[j].0 == k;
                    assert(ea[j].0 == k);
                }
            }
            assert forall|k: u32| #[trigger] table(ea).contains_key(k) implies table(ea)[k] == m[k] by {
                let j = choose|j: int| 0 <= j < ea.len() && ea[j].0 == k;
                crate::table::lemma_table_index(ea, j);
                crate::table::lemma_table_index(e, j);
            }
            assert(table(ea) =~= m);
        }
        let mut r: Vec<(PeerId, PeerSocket)> = Vec::new();
        let mut i: usize = 0;
        while i < self.peers.len()
            invariant
                i <= self.peers@.len(),
                unique_keys(crate::dto::peer_rows(r@)),
                table(crate::dto::peer_rows(r@)) == table(ea.take(i as int)),
                forall|a: int, b: int| 0 <= a < b < r@.len() ==> r@[a].0.0 < r@[b].0.0,
            decreases self.peers@.len() - i,
        {
            let row = (self.peers[i].0, self.peers[i].1.address);
            proof {
                crate::table::lemma_table_prefix_push(ea, i as int);
                assert(ea[i as int] == (row.0.0, row.1));
            }
            let mut p: usize = 0;
            while p < r.len() && r[p].0.0 < row.0.0
                invariant
                    p <= r@.len(),
                    forall|j: int| 0 <= j < p ==> r@[j].0.0 < row.0.0,
                decreases r@.len() - p,
            {
                p = p + 1;
            }
            let ghost old_r = r@;
            proof {
                assert forall|j: int| 0 <= j < old_r.len() implies old_r[j].0.0 != row.0.0 by {
                    assert(crate::dto::peer_rows(old_r)[j].0 == old_r[j].0.0);
                    if old_r[j].0.0 == row.0.0 {
                        assert(table(crate::dto::peer_rows(old_r)).contains_key(row.0.0));
                    }
                }
            }
            r.insert(p, row);
            proof {
                assert(crate::dto::peer_rows(r@) =~= crate::dto::peer_rows(old_r).insert(p as int, (row.0.0, row.1)));
                crate::table::lemma_table_insert_at(crate::dto::peer_rows(old_r), p as int, row.0.0, row.1);
                assert forall|a: int, b: int| 0 <= a < b < r@.len() implies r@[a].0.0 < r@[b].0.0 by {
                    if b < p {
                        assert(r@[a] == old_r[a] && r@[b] == old_r[b]);
                    } else if b == p {
                        assert(r@[a] == old_r[a]);
                    } else if a < p {
                        assert(r@[a] == old_r[a] && r@[b] == old_r[b - 1]);
                        assert(old_r[p as int].0.0 >= row.0.0);
                    } else if a == p {
                        assert(r@[b] == old_r[b - 1]);
                        assert(old_r[p as int].0.0 >= row.0.0);
                    } else {
                        assert(r@[a] == old_r[a - 1] && r@[b] == old_r[b - 1]);
                    }
                }
            }
            i = i + 1;
        }
        proof {
            assert(ea.take(i as int) =~= ea);
        }
        PeersDto(r)
    }

    /// The local shares with their participants, by name.
    #[verifier::loop_isolation(false)]
    pub fn shares_dto(&self) -> (r: SharesDto)
        requires
            self.wf(),
        ensures
            crate::dto::shares_dto_matches(r, self@.shares),
    {
        let ghost e = share_entries(self.shares@);
        let mut r: Vec<ShareDto> = Vec::new();
        let mut i: usize = 0;
        while i < self.shares.len()
            invariant
                i <= self.shares@.len(),
                unique_keys(crate::dto::share_rows(r@)),
                table(crate::dto::share_rows(r@)) == table(e.take(i as int)),
                crate::order::texts_sorted(crate::dto::share_rows(r@).map_values(|x: (Seq<char>, ShareView)| x.0)),
                forall|j: int| 0 <= j < r@.len() ==> ids_ascending(#[trigger] r@[j].participants@),
            decreases self.shares@.len() - i,
        {
            let s = &self.shares[i];
            proof {
                assert(s.wf());
            }
            let d = ShareDto { name: s.name.duplicate(), path: s.path.clone(), participants: s.participants() };
            proof {
                assert(d@ =~= s@);
                crate::table::lemma_table_prefix_push(e, i as int);
                assert(e[i as int] == (d.name@, d@));
            }
            let mut p: usize = 0;
            while p < r.len() && crate::order::name_less(&r[p].name, &d.name)
                invariant
                    p <= r@.len(),
                    forall|j: int| 0 <= j < p ==> crate::order::text_lt(r@[j].name@, d.name@),
                decreases r@.len() - p,
            {
                p = p + 1;
            }
            let ghost old_r = r@;
            let ghost keys = crate::dto::share_rows(old_r).map_values(|x: (Seq<char>, ShareView)| x.0);
            proof {
                assert forall|j: int| 0 <= j < keys.len() implies #[trigger] keys[j] != d.name@ by {
                    assert(keys[j] == crate::dto::share_rows(old_r)[j].0);
                    if keys[j] == d.name@ {
                        assert(table(crate::dto::share_rows(old_r)).contains_key(d.name@));
                    }
                }
                assert forall|j: int| 0 <= j < p implies crate::order::text_lt(#[trigger] keys[j], d.name@) by {
                    assert(keys[j] == old_r[j].name@);
                }
                if p < keys.len() {
                    assert(keys[p as int] == old_r[p as int].name@);
                }
                crate::order::lemma_texts_sorted_insert(keys, p as int, d.name@);
            }
            let ghost dv = d@;
            let ghost dn = d.name@;
            r.insert(p, d);
            proof {
                assert(crate::dto::share_rows(r@) =~= crate::dto::share_rows(old_r).insert(p as int, (dn, dv)));
                assert(crate::dto::share_rows(r@).map_values(|x: (Seq<char>, ShareView)| x.0) =~= keys.insert(p as int, dn));
                crate::table::lemma_table_insert_at(crate::dto::share_rows(old_r), p as int, dn, dv);
                assert forall|j: int| 0 <= j < r@.len() implies ids_ascending(#[trigger] r@[j].participants@) by {
                    if j < p {
                        assert(r@[j] == old_r[j]);
                    } else if j > p {
                        assert(r@[j] == old_r[j - 1]);
                    }
                }
            }
            i = i + 1;
        }
        proof {
            assert(e.take(i as int) =~= e);
        }
        SharesDto(r)
    }

    /// The remote shares with their mount paths, by full name.
    #[verifier::loop_isolation(false)]
    pub fn remote_shares_dto(&self) -> (r: RemoteSharesDto)
        requires
            self.wf(),
        ensures
            crate::dto::remote_shares_dto_matches(r, self@.remote_shares),
    {
        let ghost e = remote_entries(self.remote_shares@);
        let ghost m = self@.remote_shares.map_values(|v: RemoteShareView| v.mount_path);
        let ghost ea = e.map_values(|x: (FullKey, RemoteShareView)| (x.0, x.1.mount_path));
        proof {
            assert forall|a: int, b: int| 0 <= a < ea.len() && 0 <= b < ea.len() && a != b implies ea[a].0 != ea[b].0 by {
                assert(ea[a].0 == e[a].0 && ea[b].0 == e[b].0);
            }
            assert forall|k: FullKey| #[trigger] table(ea).contains_key(k) == m.contains_key(k) by {
                if table(ea).contains_key(k) {
                    let j = choose|j: int| 0 <= j < ea.len() && ea[j].0 == k;
                    assert(e[j].0 == k);
                }
                if table(e).contains_key(k) {
                    let j = choose|j: int| 0 <= j < e.len() && e[j].0 == k;
                    assert(ea[j].0 == k);
                }
            }
            assert forall|k: FullKey| #[trigger] table(ea).contains_key(k) implies table(ea)[k] == m[k] by {
                let j = choose|j: int| 0 <= j < ea.len() && ea[j].0 == k;
                crate::table::lemma_table_index(ea, j);
                crate::table::lemma_table_index(e, j);
            }
            assert(table(ea) =~= m);
        }
        let mut r: Vec<(RemotePeerAddr, RemoteShareDto)> = Vec::new();
        let mut i: usize = 0;
        while i < self.remote_shares.len()
            invariant
                i <= self.remote_shares@.len(),
                unique_keys(crate::dto::remote_rows(r@)),
                table(crate::dto::remote_rows(r@)) == table(ea.take(i as int)),
                crate::order::full_keys_sorted(crate::dto::remote_rows(r@).map_values(|x: (FullKey, Seq<char>)| x.0)),
            decreases self.remote_shares@.len() - i,
        {
            let key = &self.remote_shares[i].0;
            let row = RemoteShareDto {
                name: self.remote_shares[i].1.name.duplicate(),
                mount_path: self.remote_shares[i].1.mount_path.clone(),
            };
            proof {
                let f = self.remote_shares@[i as int].0@;
                crate::table::lemma_table_index(e, i as int);
                assert(self@.remote_shares.contains_key(f));
                assert(self@.remote_shares[f].name == f.1);
                assert(row.name@ == f.1);
                crate::table::lemma_table_prefix_push(ea, i as int);
                assert(ea[i as int] == crate::dto::remote_row((key.addr, row)));
            }
            let mut p: usize = 0;
            while p < r.len() && full_row_less(&r[p], key)
                invariant
                    p <= r@.len(),
                    forall|j: int| 0 <= j < p ==> crate::order::full_key_lt(crate::dto::remote_row(r@[j]).0, key@),
                decreases r@.len() - p,
            {
                p = p + 1;
            }
            let ghost old_r = r@;
            let ghost keys = crate::dto::remote_rows(old_r).map_values(|x: (FullKey, Seq<char>)| x.0);
            let ghost rv = crate::dto::remote_row((key.addr, row));
            proof {
                assert(rv.0 == key@);
                assert forall|j: int| 0 <= j < keys.len() implies #[trigger] keys[j] != key@ by {
                    assert(keys[j] == crate::dto::remote_rows(old_r)[j].0);
                    if keys[j] == key@ {
                        assert(table(crate::dto::remote_rows(old_r)).contains_key(key@));
                    }
                }
                assert forall|j: int| 0 <= j < p implies crate::order::full_key_lt(#[trigger] keys[j], key@) by {
                    assert(keys[j] == crate::dto::remote_row(old_r[j]).0);
                }
                if p < keys.len() {
                    assert(keys[p as int] == crate::dto::remote_row(old_r[p as int]).0);
                }
                crate::order::lemma_full_keys_sorted_insert(keys, p as int, key@);
            }
            r.insert(p, (key.addr, row));
            proof {
                assert(crate::dto::remote_rows(r@) =~= crate::dto::remote_rows(old_r).insert(p as int, rv));
                assert(crate::dto::remote_rows(r@).map_values(|x: (FullKey, Seq<char>)| x.0) =~= keys.insert(p as int, key@));
                crate::table::lemma_table_insert_at(crate::dto::remote_rows(old_r), p as int, rv.0, rv.1);
            }
            i = i + 1;
        }
        proof {
            assert(ea.take(i as int) =~= ea);
        }
        RemoteSharesDto(r)
    }

    /// The common names of the local shares, in increasing order.
    pub fn share_names(&self) -> (r: Vec<CommonShareName>)
        requires
            self.wf(),
        ensures
            distinct(name_views(r@)),
            crate::order::texts_sorted(name_views(r@)),
            set_of(name_views(r@)) == self@.shares.dom(),
    {
        let d = self.shares_dto();
        let ghost keys = crate::dto::share_rows(d.0@).map_values(|x: (Seq<char>, ShareView)| x.0);
        let mut r: Vec<CommonShareName> = Vec::new();
        let mut i: usize = 0;
        while i < d.0.len()
            invariant
                i <= d.0@.len(),
                keys == crate::dto::share_rows(d.0@).map_values(|x: (Seq<char>, ShareView)| x.0),
                name_views(r@) == keys.take(i as int),
            decreases d.0@.len() - i,
        {
            let n = d.0[i].name.duplicate();
            let ghost before = r@;
            proof {
                assert(crate::dto::share_rows(d.0@)[i as int] == (d.0@[i as int].name@, d.0@[i as int]@));
                assert(keys[i as int] == n@);
            }
            r.push(n);
            proof {
                assert(name_views(r@) =~= name_views(before).push(n@));
                assert(keys.take(i + 1) =~= keys.take(i as int).push(keys[i as int]));
            }
            i = i + 1;
        }
        proof {
            assert(keys.take(i as int) =~= keys);
            crate::table::lemma_table_dom(crate::dto::share_rows(d.0@));
            assert forall|a: int, b: int| 0 <= a < keys.len() && 0 <= b < keys.len() && a != b
                implies keys[a] != keys[b] by {
                if a < b {
                    crate::order::lemma_text_lt_irreflexive(keys[a]);
                } else {
                    crate::order::lemma_text_lt_irreflexive(keys[b]);
                }
            }
        }
        r
    }

    /// The id of the peer bound to a socket address, if any.
    pub fn peer_id_by_socket(&self, address: PeerSocket) -> (r: Option<PeerId>)
        requires
            self.wf(),
        ensures
            match r {
                Some(id) => self@.peers_by_socket.contains_key(address) && self@.peers_by_socket[address] == id.0,
                None => !self@.peers_by_socket.contains_key(address),
            },
    {
        match self.find_socket(address) {
            Some(i) => Some(self.peers_by_socket[i].1),
            None => None,
        }
    }

    /// Signals the server-wide shutdown token, as a `Kill` request does.
    pub fn request_shutdown(&mut self, shutdown_tx: &async_broadcast::Sender<()>)
        requires
            old(self).wf(),
        ensures
            final(self).wf(),
            final(self)@ == (StateView { signals: old(self)@.signals.push(Signal::ServerShutdown), ..old(self)@ }),
    {
        broadcast_ignoring_failure(shutdown_tx, ());
        proof {
            self.signals@ = self.signals@.push(Signal::ServerShutdown);
            assert(self@.peers == old(self)@.peers);
            assert(self@.shares == old(self)@.shares);
            assert(self@.remote_shares == old(self)@.remote_shares);
            assert(self@.peers_by_socket == old(self)@.peers_by_socket);
        }
    }

    /// The peer that owns a remote share, if it is mounted.
    pub fn remote_share_owner(&self, name: &FullShareName) -> (r: Option<PeerId>)
        requires
            self.wf(),
        ensures
            match r {
                Some(id) => self@.remote_shares.contains_key(name@) && self@.remote_shares[name@].owner == id.0,
                None => !self@.remote_shares.contains_key(name@),
            },
    {
        match self.find_remote(name) {
            Some(i) => Some(self.remote_shares[i].1.owner),
            None => None,
        }
    }

    /// Whether a remote share is mounted.
    pub fn has_remote_share(&self, name: &FullShareName) -> (r: bool)
        requires
            self.wf(),
        ensures
            r == self@.remote_shares.contains_key(name@),
    {
        self.find_remote(name).is_some()
    }

    /// Whether a peer with this id is live.
    pub fn has_peer(&self, id: PeerId) -> (r: bool)
        requires
            self.wf(),
        ensures
            r == self@.peers.contains_key(id.0),
    {
        self.find_peer(id).is_some()
    }

    /// How many local and remote shares a live peer uses.
    pub fn peer_memberships(&self, id: PeerId) -> (r: Option<(usize, usize)>)
        requires
            self.wf(),
        ensures
            match r {
                Some((a, b)) => self@.peers.contains_key(id.0)
                    && (a == 0) == (self@.peers[id.0].used_shares == Set::<Seq<char>>::empty())
                    && (b == 0) == (self@.peers[id.0].used_remote_shares == Set::<FullKey>::empty()),
                None => !self@.peers.contains_key(id.0),
            },
    {
        match self.find_peer(id) {
            Some(i) => {
                proof {
                    crate::table::lemma_set_empty(name_views(self.peers@[i as int].1.used_shares@));
                    crate::table::lemma_set_empty(full_name_views(self.peers@[i as int].1.used_remote_shares@));
                }
                Some((self.peers[i].1.used_shares.len(), self.peers[i].1.used_remote_shares.len()))
            },
            None => None,
        }
    }

    /// Number of local shares.
    pub fn share_count(&self) -> (r: usize)
        requires
            self.wf(),
        ensures
            (r == 0) == (self@.shares.dom() == Set::<Seq<char>>::empty()),
    {
        proof {
            crate::table::lemma_table_dom_empty(share_entries(self.shares@));
        }
        self.shares.len()
    }

    /// Removes a peer whose connection failed: it leaves every share it
    /// took part in, its remote shares go, it leaves both indices and its
    /// cancellation handle is signalled; then the shutdown predicate runs.
    #[verifier::loop_isolation(false)]
    pub fn remove_peer(
        &mut self,
        peer_id: PeerId,
        shutdown_tx: &async_broadcast::Sender<()>,
    ) -> (r: Result<(), PeerDoesntExistError>)
        requires
            old(self).wf(),
        ensures
            final(self).wf(),
            match r {
                Err(_) => !old(self)@.peers.contains_key(peer_id.0) && final(self)@ == old(self)@,
                Ok(()) => old(self)@.peers.contains_key(peer_id.0)
                    && final(self)@ == remove_peer_model(old(self)@, peer_id.0),
            },
    {
        let pi = match self.find_peer(peer_id) {
            Some(i) => i,
            None => return Err(PeerDoesntExistError),
        };
        let ghost v0 = self@;
        let ghost id = peer_id.0;
        let ghost strip = |s: ShareView| ShareView { participants: s.participants.remove(id), ..s };
        let ghost old_shares = self.shares@;

        // leave every share
        let mut i: usize = 0;
        while i < self.shares.len()
            invariant
                i <= self.shares@.len(),
                self.shares@.len() == old_shares.len(),
                self.peers@ == old(self).peers@,
                self.peers_by_socket@ == old(self).peers_by_socket@,
                self.remote_shares@ == old(self).remote_shares@,
                self.signals@ == old(self).signals@,
                self.next_peer_id == old(self).next_peer_id,
                forall|j: int| 0 <= j < i ==> (#[trigger] self.shares@[j]).name@ == old_shares[j].name@
                    && self.shares@[j]@ == strip(old_shares[j]@) && self.shares@[j].wf(),
                forall|j: int| i <= j < self.shares@.len() ==> #[trigger] self.shares@[j] == old_shares[j],
            decreases self.shares@.len() - i,
        {
            proof {
                assert(self.shares@[i as int] == old_shares[i as int]);
                assert(old_shares[i as int].wf());
            }
            match position_id(&self.shares[i].participants, peer_id) {
                Some(k) => {
                    let ghost before = id_views(self.shares@[i as int].participants@);
                    proof {
                        crate::table::lemma_set_remove(before, k as int);
                    }
                    self.shares[i].participants.remove(k);
                    proof {
                        assert(id_views(self.shares@[i as int].participants@) =~= before.remove(k as int));
                        assert(self.shares@[i as int]@ =~= strip(old_shares[i as int]@));
                    }
                },
                None => {
                    proof {
                        assert(old_shares[i as int]@.participants.remove(id) =~= old_shares[i as int]@.participants);
                        assert(self.shares@[i as int]@ == strip(old_shares[i as int]@));
                    }
                },
            }
            i = i + 1;
        }
        proof {
            crate::table::lemma_table_map_values(share_entries(old_shares), share_entries(self.shares@), strip);
            assert forall|j: int| 0 <= j < self.shares@.len() implies (#[trigger] self.shares@[j]).wf() by {}
        }

        // drop the remote shares it owns
        let ghost e = remote_entries(self.remote_shares@);
        let mut kept: Vec<(FullShareName, RemoteShare)> = Vec::new();
        let mut j: usize = 0;
        while j < self.remote_shares.len()
            invariant
                j <= self.remote_shares@.len(),
                e == remote_entries(self.remote_shares@),
                unique_keys(e),
                unique_keys(remote_entries(kept@)),
                table(remote_entries(kept@)) == Map::new(
                    |f: FullKey| table(e.take(j as int)).contains_key(f) && table(e.take(j as int))[f].owner != id,
                    |f: FullKey| table(e.take(j as int))[f],
                ),
            decreases self.remote_shares@.len() - j,
        {
            proof {
                crate::table::lemma_table_prefix_push(e, j as int);
            }
            let ghost before = table(e.take(j as int));
            let ghost after = table(e.take(j + 1));
            let ghost old_kept = remote_entries(kept@);
            if self.remote_shares[j].1.owner != peer_id {
                let entry = (
                    self.remote_shares[j].0.duplicate(),
                    RemoteShare {
                        owner: self.remote_shares[j].1.owner,
                        name: self.remote_shares[j].1.name.duplicate(),
                        mount_path: self.remote_shares[j].1.mount_path.clone(),
                    },
                );
                proof {
                    assert(entry.0@ == e[j as int].0 && entry.1@ == e[j as int].1);
                    assert(!table(old_kept).contains_key(e[j as int].0));
                    crate::table::lemma_table_push(old_kept, e[j as int].0, e[j as int].1);
                }
                kept.push(entry);
                proof {
                    assert(remote_entries(kept@) =~= old_kept.push((e[j as int].0, e[j as int].1)));
                    assert(table(remote_entries(kept@)) =~= Map::new(
                        |f: FullKey| after.contains_key(f) && after[f].owner != id,
                        |f: FullKey| after[f],
                    ));
                }
            } else {
                proof {
                    assert(table(remote_entries(kept@)) =~= Map::new(
                        |f: FullKey| after.contains_key(f) && after[f].owner != id,
                        |f: FullKey| after[f],
                    ));
                }
            }
            j = j + 1;
        }
        proof {
            assert(e.take(j as int) =~= e);
        }
        self.remote_shares = kept;

        // leave both indices
        let address = self.peers[pi].1.address;
        let ghost old_peers = peer_entries(self.peers@);
        let ghost peers_before = self.peers@;
        let removed = self.peers.remove(pi);
        proof {
            crate::table::lemma_table_index(old_peers, pi as int);
            crate::table::lemma_table_remove(old_peers, pi as int);
            assert(peer_entries(self.peers@) =~= old_peers.remove(pi as int));
            assert forall|a: int| 0 <= a < self.peers@.len() implies (#[trigger] self.peers@[a]).1.wf() by {
                if a < pi {
                    assert(self.peers@[a] == peers_before[a]);
                } else {
                    assert(self.peers@[a] == peers_before[a + 1]);
                }
            }
        }
        match self.find_socket(address) {
            Some(k) => {
                let ghost old_sockets = socket_entries(self.peers_by_socket@);
                self.peers_by_socket.remove(k);
                proof {
                    crate::table::lemma_table_remove(old_sockets, k as int);
                    assert(socket_entries(self.peers_by_socket@) =~= old_sockets.remove(k as int));
                }
            },
            None => {
                proof {
                    assert(v0.peers_by_socket.contains_key(v0.peers[id].address));
                }
            },
        }
        send_ignoring_failure(&removed.1.shutdown_tx, ());
        proof {
            self.signals@ = self.signals@.push(Signal::PeerShutdown(id));
            crate::model::lemma_remove_peer(v0, id);
            let w = StateView {
                peers: v0.peers.remove(id),
                peers_by_socket: v0.peers_by_socket.remove(v0.peers[id].address),
                shares: v0.shares.map_values(strip),
                remote_shares: Map::new(
                    |f: FullKey| v0.remote_shares.contains_key(f) && v0.remote_shares[f].owner != id,
                    |f: FullKey| v0.remote_shares[f],
                ),
                signals: v0.signals.push(Signal::PeerShutdown(id)),
                ..v0
            };
            assert(self@.shares == w.shares);
            assert(self@.remote_shares =~= w.remote_shares);
            assert(self@ == w);
            assert(membership_invariant(close_check(w)));
            assert(membership_invariant(w));
        }
        self.should_server_close(shutdown_tx);
        Ok(())
    }
}

impl Default for State {
    /// An empty state.
    fn default() -> (r: State)
        ensures
            r.wf(),
            r@.peers == Map::<u32, PeerView>::empty(),
            r@.peers_by_socket == Map::<PeerSocket, u32>::empty(),
            r@.shares == Map::<Seq<char>, ShareView>::empty(),
            r@.remote_shares == Map::<FullKey, RemoteShareView>::empty(),
            r@.signals == Seq::<Signal>::empty(),
    {
        State::new()
    }
}

fn full_row_less(row: &(RemotePeerAddr, RemoteShareDto), key: &FullShareName) -> (r: bool)
    ensures
        r == crate::order::full_key_lt(crate::dto::remote_row(*row).0, key@),
{
    let f = FullShareName { addr: row.0, name: row.1.name.duplicate() };
    crate::order::full_name_less(&f, key)
}

fn position_name(v: &Vec<CommonShareName>, n: &CommonShareName) -> (r: Option<usize>)
    ensures
        match r {
            Some(k) => k < v@.len() && v@[k as int]@ == n@,
            None => !set_of(name_views(v@)).contains(n@),
        },
{
    let mut i: usize = 0;
    while i < v.len()
        invariant
            i <= v@.len(),
            forall|j: int| 0 <= j < i ==> v@[j]@ != n@,
        decreases v@.len() - i,
    {
        if v[i].same(n) {
            return Some(i);
        }
        i = i + 1;
    }
    proof {
        if set_of(name_views(v@)).contains(n@) {
            let j = choose|j: int| 0 <= j < name_views(v@).len() && name_views(v@)[j] == n@;
            assert(v@[j]@ == n@);
        }
    }
    None
}

fn position_full(v: &Vec<FullShareName>, f: &FullShareName) -> (r: Option<usize>)
    ensures
        match r {
            Some(k) => k < v@.len() && v@[k as int]@ == f@,
            None => !set_of(full_name_views(v@)).contains(f@),
        },
{
    let mut i: usize = 0;
    while i < v.len()
        invariant
            i <= v@.len(),
            forall|j: int| 0 <= j < i ==> v@[j]@ != f@,
        decreases v@.len() - i,
    {
        if v[i].same(f) {
            return Some(i);
        }
        i = i + 1;
    }
    proof {
        if set_of(full_name_views(v@)).contains(f@) {
            let j = choose|j: int| 0 <= j < full_name_views(v@).len() && full_name_views(v@)[j] == f@;
            assert(v@[j]@ == f@);
        }
    }
    None
}

fn position_id(v: &Vec<PeerId>, id: PeerId) -> (r: Option<usize>)
    ensures
        match r {
            Some(k) => k < v@.len() && v@[k as int] == id,
            None => !set_of(id_views(v@)).contains(id.0),
        },
{
    let mut i: usize = 0;
    while i < v.len()
        invariant
            i <= v@.len(),
            forall|j: int| 0 <= j < i ==> v@[j] != id,
        decreases v@.len() - i,
    {
        if v[i] == id {
            return Some(i);
        }
        i = i + 1;
    }
    proof {
        if set_of(id_views(v@)).contains(id.0) {
            let j = choose|j: int| 0 <= j < id_views(v@).len() && id_views(v@)[j] == id.0;
            assert(v@[j].0 == id.0);
        }
    }
    None
}

} // verus!
