//! The membership graph as mathematics: peers, local shares and remote
//! shares, the invariants that tie them together, and one transition
//! function for each operation of [`crate::state::State`].

use vstd::prelude::*;
use crate::shares::RemotePeerAddr;

verus! {

/// An IPv4 socket address of a peer.
#[derive(Clone, Copy, Debug, PartialEq, Eq, Structural, PartialOrd, Ord, Hash)]
pub struct PeerSocket {
    pub ip: crate::shares::Ipv4Addr,
    pub port: u16,
}

/// A full share name, as the address and the common name's text.
pub type FullKey = (RemotePeerAddr, Seq<char>);

/// Something the state asks its surroundings to do.
pub enum Signal {
    /// `KickedFromShare(name)` was sent to the peer's notification sink.
    Kicked(u32, Seq<char>),
    /// The peer's cancellation handle was signalled.
    PeerShutdown(u32),
    /// The server-wide shutdown token was signalled.
    ServerShutdown,
}

pub struct PeerView {
    pub address: PeerSocket,
    pub used_shares: Set<Seq<char>>,
    pub used_remote_shares: Set<FullKey>,
}

pub struct ShareView {
    pub path: Seq<char>,
    pub participants: Set<u32>,
}

pub struct RemoteShareView {
    pub owner: u32,
    pub name: Seq<char>,
    pub mount_path: Seq<char>,
}

pub struct StateView {
    pub next_peer_id: u32,
    pub peers: Map<u32, PeerView>,
    pub peers_by_socket: Map<PeerSocket, u32>,
    pub shares: Map<Seq<char>, ShareView>,
    pub remote_shares: Map<FullKey, RemoteShareView>,
    /// Every signal sent so far, oldest first.
    pub signals: Seq<Signal>,
}

/// A peer with no membership edge left.
pub open spec fn idle(p: PeerView) -> bool {
    p.used_shares == Set::<Seq<char>>::empty() && p.used_remote_shares == Set::<FullKey>::empty()
}

/// Every local-share edge is recorded on both sides.
pub open spec fn share_edges_mirrored(v: StateView) -> bool {
    &&& forall|id: u32, n: Seq<char>|
        v.peers.contains_key(id) && #[trigger] v.peers[id].used_shares.contains(n)
            ==> v.shares.contains_key(n) && v.shares[n].participants.contains(id)
    &&& forall|n: Seq<char>, id: u32|
        v.shares.contains_key(n) && #[trigger] v.shares[n].participants.contains(id)
            ==> v.peers.contains_key(id) && v.peers[id].used_shares.contains(n)
}

/// Every remote share is owned by the peer that lists it.
pub open spec fn remote_edges_mirrored(v: StateView) -> bool {
    &&& forall|id: u32, f: FullKey|
        v.peers.contains_key(id) && #[trigger] v.peers[id].used_remote_shares.contains(f)
            ==> v.remote_shares.contains_key(f) && v.remote_shares[f].owner == id
    &&& forall|f: FullKey|
        #[trigger] v.remote_shares.contains_key(f)
            ==> v.peers.contains_key(v.remote_shares[f].owner)
                && v.peers[v.remote_shares[f].owner].used_remote_shares.contains(f)
                && v.remote_shares[f].name == f.1
}

/// The socket index and the peers agree, so no two peers share an address.
pub open spec fn sockets_indexed(v: StateView) -> bool {
    &&& forall|id: u32|
        #[trigger] v.peers.contains_key(id)
            ==> v.peers_by_socket.contains_key(v.peers[id].address)
                && v.peers_by_socket[v.peers[id].address] == id
    &&& forall|a: PeerSocket|
        #[trigger] v.peers_by_socket.contains_key(a)
            ==> v.peers.contains_key(v.peers_by_socket[a]) && v.peers[v.peers_by_socket[a]].address == a
}

/// A peer lives exactly as long as it has a membership edge.
pub open spec fn peers_busy(v: StateView) -> bool {
    forall|id: u32| #[trigger] v.peers.contains_key(id) ==> !idle(v.peers[id])
}

/// The invariants that hold after every operation.
pub open spec fn membership_invariant(v: StateView) -> bool {
    &&& share_edges_mirrored(v)
    &&& remote_edges_mirrored(v)
    &&& sockets_indexed(v)
    &&& peers_busy(v)
}

// ---------------------------------------------------------------------------
// Transitions
// ---------------------------------------------------------------------------

pub open spec fn add_share_model(v: StateView, n: Seq<char>, path: Seq<char>) -> StateView {
    StateView {
        shares: v.shares.insert(n, ShareView { path, participants: Set::empty() }),
        ..v
    }
}

pub open spec fn new_peer_model(v: StateView, id: u32, next: u32, address: PeerSocket, n: Seq<char>) -> StateView {
    StateView {
        next_peer_id: next,
        peers: v.peers.insert(id, PeerView {
            address,
            used_shares: Set::empty().insert(n),
            used_remote_shares: Set::empty(),
        }),
        peers_by_socket: v.peers_by_socket.insert(address, id),
        shares: v.shares.insert(n, ShareView {
            participants: v.shares[n].participants.insert(id),
            ..v.shares[n]
        }),
        ..v
    }
}

pub open spec fn connect_model(v: StateView, id: u32, n: Seq<char>) -> StateView {
    StateView {
        peers: v.peers.insert(id, PeerView { used_shares: v.peers[id].used_shares.insert(n), ..v.peers[id] }),
        shares: v.shares.insert(n, ShareView {
            participants: v.shares[n].participants.insert(id),
            ..v.shares[n]
        }),
        ..v
    }
}

/// Removes the edge between peer `id` and share `n` on both sides.
pub open spec fn unbind_model(v: StateView, id: u32, n: Seq<char>) -> StateView {
    StateView {
        peers: v.peers.insert(id, PeerView { used_shares: v.peers[id].used_shares.remove(n), ..v.peers[id] }),
        shares: v.shares.insert(n, ShareView {
            participants: v.shares[n].participants.remove(id),
            ..v.shares[n]
        }),
        ..v
    }
}

/// Try-drop: a peer without edges leaves both indices and is cancelled.
pub open spec fn drop_if_idle(v: StateView, id: u32) -> StateView {
    if v.peers.contains_key(id) && idle(v.peers[id]) {
        StateView {
            peers: v.peers.remove(id),
            peers_by_socket: v.peers_by_socket.remove(v.peers[id].address),
            signals: v.signals.push(Signal::PeerShutdown(id)),
            ..v
        }
    } else {
        v
    }
}

pub open spec fn disconnect_model(v: StateView, id: u32, n: Seq<char>) -> StateView {
    drop_if_idle(unbind_model(v, id, n), id)
}

pub open spec fn kick_model(v: StateView, id: u32, n: Seq<char>) -> StateView {
    let u = unbind_model(v, id, n);
    drop_if_idle(StateView { signals: u.signals.push(Signal::Kicked(id, n)), ..u }, id)
}

/// Kicks the peers of `order` from share `n`, first to last.
pub open spec fn kick_all(v: StateView, order: Seq<u32>, n: Seq<char>) -> StateView
    decreases order.len(),
{
    if order.len() == 0 {
        v
    } else {
        kick_model(kick_all(v, order.drop_last(), n), order.last(), n)
    }
}

/// The shutdown predicate: an empty state signals the server to stop.
pub open spec fn close_check(v: StateView) -> StateView {
    if v.peers.dom() == Set::<u32>::empty() && v.shares.dom() == Set::<Seq<char>>::empty() {
        StateView { signals: v.signals.push(Signal::ServerShutdown), ..v }
    } else {
        v
    }
}

/// `remove_share` when the participants of `n` are kicked in `order`.
pub open spec fn remove_share_model(v: StateView, order: Seq<u32>, n: Seq<char>) -> StateView {
    let k = kick_all(v, order, n);
    close_check(StateView { shares: k.shares.remove(n), ..k })
}

pub open spec fn new_remote_model(
    v: StateView,
    id: u32,
    next: u32,
    address: PeerSocket,
    f: FullKey,
    mount_path: Seq<char>,
) -> StateView {
    StateView {
        next_peer_id: next,
        peers: v.peers.insert(id, PeerView {
            address,
            used_shares: Set::empty(),
            used_remote_shares: Set::empty().insert(f),
        }),
        peers_by_socket: v.peers_by_socket.insert(address, id),
        remote_shares: v.remote_shares.insert(f, RemoteShareView { owner: id, name: f.1, mount_path }),
        ..v
    }
}

pub open spec fn join_remote_model(v: StateView, id: u32, f: FullKey, mount_path: Seq<char>) -> StateView {
    StateView {
        peers: v.peers.insert(id, PeerView {
            used_remote_shares: v.peers[id].used_remote_shares.insert(f),
            ..v.peers[id]
        }),
        remote_shares: v.remote_shares.insert(f, RemoteShareView { owner: id, name: f.1, mount_path }),
        ..v
    }
}

pub open spec fn exit_remote_model(v: StateView, id: u32, f: FullKey) -> StateView {
    let u = StateView {
        peers: v.peers.insert(id, PeerView {
            used_remote_shares: v.peers[id].used_remote_shares.remove(f),
            ..v.peers[id]
        }),
        remote_shares: v.remote_shares.remove(f),
        ..v
    };
    close_check(drop_if_idle(u, id))
}

/// Removes a peer with all its edges: it leaves every share it took part
/// in, its remote shares go, it leaves both indices and is cancelled; then
/// the shutdown predicate runs.
pub open spec fn remove_peer_model(v: StateView, id: u32) -> StateView {
    close_check(StateView {
        peers: v.peers.remove(id),
        peers_by_socket: v.peers_by_socket.remove(v.peers[id].address),
        shares: v.shares.map_values(|s: ShareView| ShareView { participants: s.participants.remove(id), ..s }),
        remote_shares: Map::new(
            |f: FullKey| v.remote_shares.contains_key(f) && v.remote_shares[f].owner != id,
            |f: FullKey| v.remote_shares[f],
        ),
        signals: v.signals.push(Signal::PeerShutdown(id)),
        ..v
    })
}

// ---------------------------------------------------------------------------
// Each transition keeps the invariants
// ---------------------------------------------------------------------------

pub proof fn lemma_add_share(v: StateView, n: Seq<char>, path: Seq<char>)
    requires
        membership_invariant(v),
        !v.shares.contains_key(n),
    ensures
        membership_invariant(add_share_model(v, n, path)),
{
    let w = add_share_model(v, n, path);
    assert forall|id: u32, m: Seq<char>| w.peers.contains_key(id) && #[trigger] w.peers[id].used_shares.contains(m)
        implies w.shares.contains_key(m) && w.shares[m].participants.contains(id) by {
        assert(v.shares.contains_key(m));
    }
}

pub proof fn lemma_new_peer(v: StateView, id: u32, next: u32, address: PeerSocket, n: Seq<char>)
    requires
        membership_invariant(v),
        !v.peers.contains_key(id),
        !v.peers_by_socket.contains_key(address),
        v.shares.contains_key(n),
    ensures
        membership_invariant(new_peer_model(v, id, next, address, n)),
{
    let w = new_peer_model(v, id, next, address, n);
    assert forall|i: u32, m: Seq<char>| w.peers.contains_key(i) && #[trigger] w.peers[i].used_shares.contains(m)
        implies w.shares.contains_key(m) && w.shares[m].participants.contains(i) by {
        if i != id {
            assert(v.peers[i].used_shares.contains(m));
        }
    }
    assert forall|m: Seq<char>, i: u32| w.shares.contains_key(m) && #[trigger] w.shares[m].participants.contains(i)
        implies w.peers.contains_key(i) && w.peers[i].used_shares.contains(m) by {
        if i != id {
            assert(v.shares[m].participants.contains(i));
        }
    }
    assert forall|i: u32, f: FullKey| w.peers.contains_key(i) && #[trigger] w.peers[i].used_remote_shares.contains(f)
        implies w.remote_shares.contains_key(f) && w.remote_shares[f].owner == i by {
        assert(i != id);
        assert(v.peers[i].used_remote_shares.contains(f));
    }
    assert forall|f: FullKey| #[trigger] w.remote_shares.contains_key(f)
        implies w.peers.contains_key(w.remote_shares[f].owner)
            && w.peers[w.remote_shares[f].owner].used_remote_shares.contains(f)
            && w.remote_shares[f].name == f.1 by {
        assert(v.remote_shares.contains_key(f));
    }
    assert forall|i: u32| #[trigger] w.peers.contains_key(i) implies !idle(w.peers[i]) by {
        if i == id {
            assert(w.peers[i].used_shares.contains(n));
        }
    }
    assert forall|i: u32| #[trigger] w.peers.contains_key(i)
        implies w.peers_by_socket.contains_key(w.peers[i].address) && w.peers_by_socket[w.peers[i].address] == i by {
        if i != id {
            assert(v.peers.contains_key(i));
        }
    }
    assert forall|a: PeerSocket| #[trigger] w.peers_by_socket.contains_key(a)
        implies w.peers.contains_key(w.peers_by_socket[a]) && w.peers[w.peers_by_socket[a]].address == a by {
        if a != address {
            assert(v.peers_by_socket.contains_key(a));
        }
    }
}

pub proof fn lemma_connect(v: StateView, id: u32, n: Seq<char>)
    requires
        membership_invariant(v),
        v.peers.contains_key(id),
        v.shares.contains_key(n),
    ensures
        membership_invariant(connect_model(v, id, n)),
{
    let w = connect_model(v, id, n);
    assert forall|i: u32, m: Seq<char>| w.peers.contains_key(i) && #[trigger] w.peers[i].used_shares.contains(m)
        implies w.shares.contains_key(m) && w.shares[m].participants.contains(i) by {
        if !(i == id && m == n) {
            assert(v.peers[i].used_shares.contains(m));
        }
    }
    assert forall|m: Seq<char>, i: u32| w.shares.contains_key(m) && #[trigger] w.shares[m].participants.contains(i)
        implies w.peers.contains_key(i) && w.peers[i].used_shares.contains(m) by {
        if !(i == id && m == n) {
            assert(v.shares[m].participants.contains(i));
        }
    }
    assert forall|i: u32, f: FullKey| w.peers.contains_key(i) && #[trigger] w.peers[i].used_remote_shares.contains(f)
        implies w.remote_shares.contains_key(f) && w.remote_shares[f].owner == i by {
        assert(v.peers[i].used_remote_shares.contains(f));
    }
    assert forall|i: u32| #[trigger] w.peers.contains_key(i) implies !idle(w.peers[i]) by {
        if i == id {
            assert(w.peers[i].used_shares.contains(n));
        }
    }
}

/// Unbinding one edge and then dropping the peer if it is idle keeps the
/// invariants; `extra` may be appended to the signals in between.
pub proof fn lemma_unbind_drop(v: StateView, id: u32, n: Seq<char>, extra: Seq<Signal>)
    requires
        membership_invariant(v),
        v.peers.contains_key(id),
        v.shares.contains_key(n),
        v.shares[n].participants.contains(id),
    ensures
        membership_invariant(drop_if_idle(StateView { signals: unbind_model(v, id, n).signals + extra, ..unbind_model(v, id, n) }, id)),
{
    let u0 = unbind_model(v, id, n);
    let u = StateView { signals: u0.signals + extra, ..u0 };
    let w = drop_if_idle(u, id);
    let dropped = idle(u.peers[id]);
    assert forall|i: u32, m: Seq<char>| w.peers.contains_key(i) && #[trigger] w.peers[i].used_shares.contains(m)
        implies w.shares.contains_key(m) && w.shares[m].participants.contains(i) by {
        assert(v.peers[i].used_shares.contains(m));
    }
    assert forall|m: Seq<char>, i: u32| w.shares.contains_key(m) && #[trigger] w.shares[m].participants.contains(i)
        implies w.peers.contains_key(i) && w.peers[i].used_shares.contains(m) by {
        assert(v.shares[m].participants.contains(i));
        if dropped && i == id {
            assert(u.peers[id].used_shares.contains(m));
        }
    }
    assert forall|i: u32, f: FullKey| w.peers.contains_key(i) && #[trigger] w.peers[i].used_remote_shares.contains(f)
        implies w.remote_shares.contains_key(f) && w.remote_shares[f].owner == i by {
        assert(v.peers[i].used_remote_shares.contains(f));
    }
    assert forall|f: FullKey| #[trigger] w.remote_shares.contains_key(f)
        implies w.peers.contains_key(w.remote_shares[f].owner)
            && w.peers[w.remote_shares[f].owner].used_remote_shares.contains(f)
            && w.remote_shares[f].name == f.1 by {
        assert(v.remote_shares.contains_key(f));
        if dropped && v.remote_shares[f].owner == id {
            assert(u.peers[id].used_remote_shares.contains(f));
        }
    }
    assert forall|i: u32| #[trigger] w.peers.contains_key(i) implies !idle(w.peers[i]) by {
        assert(v.peers.contains_key(i));
    }
    assert forall|i: u32| #[trigger] w.peers.contains_key(i)
        implies w.peers_by_socket.contains_key(w.peers[i].address) && w.peers_by_socket[w.peers[i].address] == i by {
        assert(v.peers.contains_key(i));
    }
    assert forall|a: PeerSocket| #[trigger] w.peers_by_socket.contains_key(a)
        implies w.peers.contains_key(w.peers_by_socket[a]) && w.peers[w.peers_by_socket[a]].address == a by {
        assert(v.peers_by_socket.contains_key(a));
    }
}

pub proof fn lemma_disconnect(v: StateView, id: u32, n: Seq<char>)
    requires
        membership_invariant(v),
        v.peers.contains_key(id),
        v.shares.contains_key(n),
        v.shares[n].participants.contains(id),
    ensures
        membership_invariant(disconnect_model(v, id, n)),
{
    lemma_unbind_drop(v, id, n, Seq::empty());
    let u0 = unbind_model(v, id, n);
    assert(StateView { signals: u0.signals + Seq::<Signal>::empty(), ..u0 } == u0) by {
        assert(u0.signals + Seq::<Signal>::empty() =~= u0.signals);
    }
}

pub proof fn lemma_kick(v: StateView, id: u32, n: Seq<char>)
    requires
        membership_invariant(v),
        v.peers.contains_key(id),
        v.shares.contains_key(n),
        v.shares[n].participants.contains(id),
    ensures
        membership_invariant(kick_model(v, id, n)),
        kick_model(v, id, n).shares == unbind_model(v, id, n).shares,
        kick_model(v, id, n).remote_shares == v.remote_shares,
{
    lemma_unbind_drop(v, id, n, seq![Signal::Kicked(id, n)]);
    let u0 = unbind_model(v, id, n);
    assert(u0.signals + seq![Signal::Kicked(id, n)] =~= u0.signals.push(Signal::Kicked(id, n)));
}

/// Kicking a sequence of distinct participants of `n` keeps the invariants
/// and leaves exactly the other participants in `n`.
pub proof fn lemma_kick_all(v: StateView, order: Seq<u32>, n: Seq<char>)
    requires
        membership_invariant(v),
        v.shares.contains_key(n),
        crate::table::distinct(order),
        forall|i: int| 0 <= i < order.len() ==> v.shares[n].participants.contains(#[trigger] order[i]),
    ensures
        membership_invariant(kick_all(v, order, n)),
        kick_all(v, order, n).shares.contains_key(n),
        kick_all(v, order, n).shares[n].participants == v.shares[n].participants.difference(crate::table::set_of(order)),
        kick_all(v, order, n).shares.remove(n) == v.shares.remove(n),
    decreases order.len(),
{
    if order.len() == 0 {
        assert(v.shares[n].participants.difference(crate::table::set_of(order)) =~= v.shares[n].participants);
        assert(v.shares.remove(n) =~= v.shares.remove(n));
    } else {
        let init = order.drop_last();
        let id = order.last();
        assert forall|i: int, j: int| 0 <= i < init.len() && 0 <= j < init.len() && i != j implies init[i] != init[j] by {
            assert(init[i] == order[i] && init[j] == order[j]);
        }
        assert forall|i: int| 0 <= i < init.len() implies v.shares[n].participants.contains(#[trigger] init[i]) by {
            assert(init[i] == order[i]);
        }
        lemma_kick_all(v, init, n);
        let k = kick_all(v, init, n);
        assert(!crate::table::set_of(init).contains(id)) by {
            if crate::table::set_of(init).contains(id) {
                let j = choose|j: int| 0 <= j < init.len() && init[j] == id;
                assert(order[j] == order[order.len() - 1]);
            }
        }
        assert(v.shares[n].participants.contains(id));
        assert(k.shares[n].participants.contains(id));
        lemma_kick(k, id, n);
        assert(order =~= init.push(id));
        crate::table::lemma_set_push(init, id);
        let w = kick_model(k, id, n);
        assert(w.shares[n].participants =~= v.shares[n].participants.difference(crate::table::set_of(order)));
        assert(w.shares.remove(n) =~= v.shares.remove(n));
    }
}

/// Removing a share that nobody uses keeps the invariants.
pub proof fn lemma_remove_unused_share(v: StateView, n: Seq<char>)
    requires
        membership_invariant(v),
        v.shares.contains_key(n),
        v.shares[n].participants == Set::<u32>::empty(),
    ensures
        membership_invariant(StateView { shares: v.shares.remove(n), ..v }),
{
    let w = StateView { shares: v.shares.remove(n), ..v };
    assert forall|i: u32, m: Seq<char>| w.peers.contains_key(i) && #[trigger] w.peers[i].used_shares.contains(m)
        implies w.shares.contains_key(m) && w.shares[m].participants.contains(i) by {
        assert(v.shares[m].participants.contains(i));
        if m == n {
            assert(!v.shares[n].participants.contains(i));
        }
    }
    assert forall|m: Seq<char>, i: u32| w.shares.contains_key(m) && #[trigger] w.shares[m].participants.contains(i)
        implies w.peers.contains_key(i) && w.peers[i].used_shares.contains(m) by {
        assert(v.shares[m].participants.contains(i));
    }
}

pub proof fn lemma_close_check(v: StateView)
    requires
        membership_invariant(v),
    ensures
        membership_invariant(close_check(v)),
{
}

pub proof fn lemma_new_remote(v: StateView, id: u32, next: u32, address: PeerSocket, f: FullKey, mount_path: Seq<char>)
    requires
        membership_invariant(v),
        !v.peers.contains_key(id),
        !v.peers_by_socket.contains_key(address),
        !v.remote_shares.contains_key(f),
    ensures
        membership_invariant(new_remote_model(v, id, next, address, f, mount_path)),
{
    let w = new_remote_model(v, id, next, address, f, mount_path);
    assert forall|i: u32, m: Seq<char>| w.peers.contains_key(i) && #[trigger] w.peers[i].used_shares.contains(m)
        implies w.shares.contains_key(m) && w.shares[m].participants.contains(i) by {
        assert(i != id);
        assert(v.peers[i].used_shares.contains(m));
    }
    assert forall|m: Seq<char>, i: u32| w.shares.contains_key(m) && #[trigger] w.shares[m].participants.contains(i)
        implies w.peers.contains_key(i) && w.peers[i].used_shares.contains(m) by {
        assert(v.shares[m].participants.contains(i));
    }
    assert forall|i: u32, g: FullKey| w.peers.contains_key(i) && #[trigger] w.peers[i].used_remote_shares.contains(g)
        implies w.remote_shares.contains_key(g) && w.remote_shares[g].owner == i by {
        if i != id {
            assert(v.peers[i].used_remote_shares.contains(g));
        }
    }
    assert forall|g: FullKey| #[trigger] w.remote_shares.contains_key(g)
        implies w.peers.contains_key(w.remote_shares[g].owner)
            && w.peers[w.remote_shares[g].owner].used_remote_shares.contains(g)
            && w.remote_shares[g].name == g.1 by {
        if g != f {
            assert(v.remote_shares.contains_key(g));
        }
    }
    assert forall|i: u32| #[trigger] w.peers.contains_key(i) implies !idle(w.peers[i]) by {
        if i == id {
            assert(w.peers[i].used_remote_shares.contains(f));
        }
    }
    assert forall|i: u32| #[trigger] w.peers.contains_key(i)
        implies w.peers_by_socket.contains_key(w.peers[i].address) && w.peers_by_socket[w.peers[i].address] == i by {
        if i != id {
            assert(v.peers.contains_key(i));
        }
    }
    assert forall|a: PeerSocket| #[trigger] w.peers_by_socket.contains_key(a)
        implies w.peers.contains_key(w.peers_by_socket[a]) && w.peers[w.peers_by_socket[a]].address == a by {
        if a != address {
            assert(v.peers_by_socket.contains_key(a));
        }
    }
}

pub proof fn lemma_join_remote(v: StateView, id: u32, f: FullKey, mount_path: Seq<char>)
    requires
        membership_invariant(v),
        v.peers.contains_key(id),
        !v.remote_shares.contains_key(f),
    ensures
        membership_invariant(join_remote_model(v, id, f, mount_path)),
{
    let w = join_remote_model(v, id, f, mount_path);
    assert forall|i: u32, m: Seq<char>| w.peers.contains_key(i) && #[trigger] w.peers[i].used_shares.contains(m)
        implies w.shares.contains_key(m) && w.shares[m].participants.contains(i) by {
        assert(v.peers[i].used_shares.contains(m));
    }
    assert forall|i: u32, g: FullKey| w.peers.contains_key(i) && #[trigger] w.peers[i].used_remote_shares.contains(g)
        implies w.remote_shares.contains_key(g) && w.remote_shares[g].owner == i by {
        if g != f {
            assert(v.peers[i].used_remote_shares.contains(g));
        }
    }
    assert forall|g: FullKey| #[trigger] w.remote_shares.contains_key(g)
        implies w.peers.contains_key(w.remote_shares[g].owner)
            && w.peers[w.remote_shares[g].owner].used_remote_shares.contains(g)
            && w.remote_shares[g].name == g.1 by {
        if g != f {
            assert(v.remote_shares.contains_key(g));
        }
    }
    assert forall|i: u32| #[trigger] w.peers.contains_key(i) implies !idle(w.peers[i]) by {
        if i == id {
            assert(w.peers[i].used_remote_shares.contains(f));
        }
    }
}

pub proof fn lemma_exit_remote(v: StateView, id: u32, f: FullKey)
    requires
        membership_invariant(v),
        v.peers.contains_key(id),
        v.peers[id].used_remote_shares.contains(f),
    ensures
        membership_invariant(exit_remote_model(v, id, f)),
{
    let u = StateView {
        peers: v.peers.insert(id, PeerView {
            used_remote_shares: v.peers[id].used_remote_shares.remove(f),
            ..v.peers[id]
        }),
        remote_shares: v.remote_shares.remove(f),
        ..v
    };
    let w = drop_if_idle(u, id);
    let dropped = idle(u.peers[id]);
    assert forall|i: u32, m: Seq<char>| w.peers.contains_key(i) && #[trigger] w.peers[i].used_shares.contains(m)
        implies w.shares.contains_key(m) && w.shares[m].participants.contains(i) by {
        assert(v.peers[i].used_shares.contains(m));
    }
    assert forall|m: Seq<char>, i: u32| w.shares.contains_key(m) && #[trigger] w.shares[m].participants.contains(i)
        implies w.peers.contains_key(i) && w.peers[i].used_shares.contains(m) by {
        assert(v.shares[m].participants.contains(i));
        if dropped && i == id {
            assert(u.peers[id].used_shares.contains(m));
        }
    }
    assert forall|i: u32, g: FullKey| w.peers.contains_key(i) && #[trigger] w.peers[i].used_remote_shares.contains(g)
        implies w.remote_shares.contains_key(g) && w.remote_shares[g].owner == i by {
        assert(v.peers[i].used_remote_shares.contains(g));
    }
    assert forall|g: FullKey| #[trigger] w.remote_shares.contains_key(g)
        implies w.peers.contains_key(w.remote_shares[g].owner)
            && w.peers[w.remote_shares[g].owner].used_remote_shares.contains(g)
            && w.remote_shares[g].name == g.1 by {
        assert(v.remote_shares.contains_key(g));
        if v.remote_shares[g].owner == id {
            assert(v.peers[id].used_remote_shares.contains(g));
            assert(u.peers[id].used_remote_shares.contains(g));
        }
    }
    assert forall|i: u32| #[trigger] w.peers.contains_key(i) implies !idle(w.peers[i]) by {
        assert(v.peers.contains_key(i));
    }
    assert forall|i: u32| #[trigger] w.peers.contains_key(i)
        implies w.peers_by_socket.contains_key(w.peers[i].address) && w.peers_by_socket[w.peers[i].address] == i by {
        assert(v.peers.contains_key(i));
    }
    assert forall|a: PeerSocket| #[trigger] w.peers_by_socket.contains_key(a)
        implies w.peers.contains_key(w.peers_by_socket[a]) && w.peers[w.peers_by_socket[a]].address == a by {
        assert(v.peers_by_socket.contains_key(a));
    }
    lemma_close_check(w);
}

pub proof fn lemma_remove_peer(v: StateView, id: u32)
    requires
        membership_invariant(v),
        v.peers.contains_key(id),
    ensures
        membership_invariant(remove_peer_model(v, id)),
{
    let w = StateView {
        peers: v.peers.remove(id),
        peers_by_socket: v.peers_by_socket.remove(v.peers[id].address),
        shares: v.shares.map_values(|s: ShareView| ShareView { participants: s.participants.remove(id), ..s }),
        remote_shares: Map::new(
            |f: FullKey| v.remote_shares.contains_key(f) && v.remote_shares[f].owner != id,
            |f: FullKey| v.remote_shares[f],
        ),
        signals: v.signals.push(Signal::PeerShutdown(id)),
        ..v
    };
    assert forall|i: u32, m: Seq<char>| w.peers.contains_key(i) && #[trigger] w.peers[i].used_shares.contains(m)
        implies w.shares.contains_key(m) && w.shares[m].participants.contains(i) by {
        assert(v.peers[i].used_shares.contains(m));
    }
    assert forall|m: Seq<char>, i: u32| w.shares.contains_key(m) && #[trigger] w.shares[m].participants.contains(i)
        implies w.peers.contains_key(i) && w.peers[i].used_shares.contains(m) by {
        assert(v.shares[m].participants.contains(i));
    }
    assert forall|i: u32, f: FullKey| w.peers.contains_key(i) && #[trigger] w.peers[i].used_remote_shares.contains(f)
        implies w.remote_shares.contains_key(f) && w.remote_shares[f].owner == i by {
        assert(v.peers[i].used_remote_shares.contains(f));
    }
    assert forall|f: FullKey| #[trigger] w.remote_shares.contains_key(f)
        implies w.peers.contains_key(w.remote_shares[f].owner)
            && w.peers[w.remote_shares[f].owner].used_remote_shares.contains(f)
            && w.remote_shares[f].name == f.1 by {
        assert(v.remote_shares.contains_key(f));
    }
    assert forall|i: u32| #[trigger] w.peers.contains_key(i)
        implies w.peers_by_socket.contains_key(w.peers[i].address) && w.peers_by_socket[w.peers[i].address] == i by {
        assert(v.peers.contains_key(i));
    }
    assert forall|a: PeerSocket| #[trigger] w.peers_by_socket.contains_key(a)
        implies w.peers.contains_key(w.peers_by_socket[a]) && w.peers[w.peers_by_socket[a]].address == a by {
        assert(v.peers_by_socket.contains_key(a));
    }
    assert forall|i: u32| #[trigger] w.peers.contains_key(i) implies !idle(w.peers[i]) by {
        assert(v.peers.contains_key(i));
    }
    lemma_close_check(w);
}

// ---------------------------------------------------------------------------
// Laws relating several operations
// ---------------------------------------------------------------------------

/// A peer that joined one share and leaves it is gone, and its
/// cancellation handle is signalled, once.
pub proof fn lemma_peer_lifecycle_one_share(v: StateView, id: u32, next: u32, address: PeerSocket, a: Seq<char>)
    requires
        membership_invariant(v),
        !v.peers.contains_key(id),
        !v.peers_by_socket.contains_key(address),
        v.shares.contains_key(a),
    ensures
        !disconnect_model(new_peer_model(v, id, next, address, a), id, a).peers.contains_key(id),
        !disconnect_model(new_peer_model(v, id, next, address, a), id, a).peers_by_socket.contains_key(address),
        disconnect_model(new_peer_model(v, id, next, address, a), id, a).signals
            == v.signals.push(Signal::PeerShutdown(id)),
{
    let w1 = new_peer_model(v, id, next, address, a);
    let u = unbind_model(w1, id, a);
    assert(u.peers[id].used_shares =~= Set::<Seq<char>>::empty());
    assert(idle(u.peers[id]));
}

/// A peer that joined two shares stays while it uses one of them, and goes
/// (its cancellation signalled) when it leaves the second.
pub proof fn lemma_peer_lifecycle_two_shares(
    v: StateView,
    id: u32,
    next: u32,
    address: PeerSocket,
    a: Seq<char>,
    b: Seq<char>,
)
    requires
        membership_invariant(v),
        !v.peers.contains_key(id),
        !v.peers_by_socket.contains_key(address),
        v.shares.contains_key(a),
        v.shares.contains_key(b),
        a != b,
    ensures
        ({
            let w3 = disconnect_model(connect_model(new_peer_model(v, id, next, address, a), id, b), id, a);
            &&& w3.peers.contains_key(id)
            &&& w3.signals == v.signals
            &&& !disconnect_model(w3, id, b).peers.contains_key(id)
            &&& disconnect_model(w3, id, b).signals == v.signals.push(Signal::PeerShutdown(id))
        }),
{
    let w1 = new_peer_model(v, id, next, address, a);
    let w2 = connect_model(w1, id, b);
    let u = unbind_model(w2, id, a);
    assert(u.peers[id].used_shares.contains(b));
    assert(!idle(u.peers[id]));
    let w3 = disconnect_model(w2, id, a);
    assert(w3 == u);
    let u2 = unbind_model(w3, id, b);
    assert(u2.peers[id].used_shares =~= Set::<Seq<char>>::empty());
    assert(idle(u2.peers[id]));
}

/// On an empty state, adding a share and removing it signals the server
/// to stop, exactly once.
pub proof fn lemma_shutdown_after_last_share(v: StateView, n: Seq<char>, path: Seq<char>, order: Seq<u32>)
    requires
        v.peers.dom() == Set::<u32>::empty(),
        v.shares.dom() == Set::<Seq<char>>::empty(),
        crate::table::set_of(order) == add_share_model(v, n, path).shares[n].participants,
    ensures
        remove_share_model(add_share_model(v, n, path), order, n).signals == v.signals.push(Signal::ServerShutdown),
{
    let w = add_share_model(v, n, path);
    assert(order.len() == 0) by {
        if order.len() > 0 {
            assert(crate::table::set_of(order).contains(order[0]));
        }
    }
    assert(kick_all(w, order, n) == w);
    assert(w.shares.remove(n).dom() =~= Set::<Seq<char>>::empty());
}

/// Adding two shares and removing one of them does not signal the server
/// to stop.
pub proof fn lemma_no_shutdown_while_a_share_is_left(
    v: StateView,
    n1: Seq<char>,
    path_one: Seq<char>,
    n2: Seq<char>,
    path_two: Seq<char>,
    order: Seq<u32>,
)
    requires
        n1 != n2,
        crate::table::set_of(order) == add_share_model(add_share_model(v, n1, path_one), n2, path_two).shares[n1].participants,
    ensures
        remove_share_model(add_share_model(add_share_model(v, n1, path_one), n2, path_two), order, n1).signals == v.signals,
        remove_share_model(add_share_model(add_share_model(v, n1, path_one), n2, path_two), order, n1).shares.contains_key(n2),
{
    let w = add_share_model(add_share_model(v, n1, path_one), n2, path_two);
    assert(w.shares[n1].participants == Set::<u32>::empty());
    assert(order.len() == 0) by {
        if order.len() > 0 {
            assert(crate::table::set_of(order).contains(order[0]));
        }
    }
    assert(kick_all(w, order, n1) == w);
    assert(w.shares.remove(n1).dom().contains(n2));
}

/// Operations other than share removal, remote-share exit and the explicit
/// check never signal the server to stop.
pub proof fn lemma_connects_never_signal_shutdown(v: StateView, id: u32, next: u32, address: PeerSocket, n: Seq<char>)
    ensures
        new_peer_model(v, id, next, address, n).signals == v.signals,
        connect_model(v, id, n).signals == v.signals,
{
}

/// A peer with its edge to share `n` removed.
pub open spec fn unbound_peer(p: PeerView, n: Seq<char>) -> PeerView {
    PeerView { used_shares: p.used_shares.remove(n), ..p }
}

/// What kicking the participants of `n` in `order` does to one peer `id`.
pub proof fn lemma_kick_all_peer(v: StateView, order: Seq<u32>, n: Seq<char>, id: u32)
    requires
        membership_invariant(v),
        v.shares.contains_key(n),
        crate::table::distinct(order),
        forall|i: int| 0 <= i < order.len() ==> v.shares[n].participants.contains(#[trigger] order[i]),
    ensures
        crate::table::set_of(order).contains(id) ==> {
            let k = kick_all(v, order, n);
            &&& k.peers.contains_key(id) == !idle(unbound_peer(v.peers[id], n))
            &&& k.peers.contains_key(id) ==> k.peers[id] == unbound_peer(v.peers[id], n)
            &&& k.signals.contains(Signal::Kicked(id, n))
            &&& !k.peers.contains_key(id) ==> k.signals.contains(Signal::PeerShutdown(id))
        },
        !crate::table::set_of(order).contains(id) ==> {
            let k = kick_all(v, order, n);
            &&& k.peers.contains_key(id) == v.peers.contains_key(id)
            &&& v.peers.contains_key(id) ==> k.peers[id] == v.peers[id]
        },
        forall|x: Signal| v.signals.contains(x) ==> #[trigger] kick_all(v, order, n).signals.contains(x),
    decreases order.len(),
{
    if order.len() == 0 {
        assert(!crate::table::set_of(order).contains(id));
    } else {
        let init = order.drop_last();
        let last = order.last();
        assert forall|i: int, j: int| 0 <= i < init.len() && 0 <= j < init.len() && i != j implies init[i] != init[j] by {
            assert(init[i] == order[i] && init[j] == order[j]);
        }
        assert forall|i: int| 0 <= i < init.len() implies v.shares[n].participants.contains(#[trigger] init[i]) by {
            assert(init[i] == order[i]);
        }
        lemma_kick_all_peer(v, init, n, id);
        lemma_kick_all_peer(v, init, n, last);
        assert(order =~= init.push(last));
        crate::table::lemma_set_push(init, last);
        assert(!crate::table::set_of(init).contains(last)) by {
            if crate::table::set_of(init).contains(last) {
                let j = choose|j: int| 0 <= j < init.len() && init[j] == last;
                assert(order[j] == order[order.len() - 1]);
            }
        }
        assert(v.shares[n].participants.contains(last));
        assert(v.peers.contains_key(last));
        let k1 = kick_all(v, init, n);
        let u0 = unbind_model(k1, last, n);
        let u = StateView { signals: u0.signals.push(Signal::Kicked(last, n)), ..u0 };
        let k = drop_if_idle(u, last);
        assert(kick_all(v, order, n) == k);
        assert(u.signals.contains(Signal::Kicked(last, n))) by {
            assert(u.signals[u.signals.len() - 1] == Signal::Kicked(last, n));
        }
        assert forall|x: Signal| k1.signals.contains(x) implies #[trigger] k.signals.contains(x) by {
            let j = choose|j: int| 0 <= j < k1.signals.len() && k1.signals[j] == x;
            assert(k.signals[j] == x);
        }
        assert forall|x: Signal| u.signals.contains(x) implies #[trigger] k.signals.contains(x) by {
            let j = choose|j: int| 0 <= j < u.signals.len() && u.signals[j] == x;
            assert(k.signals[j] == x);
        }
        assert forall|x: Signal| v.signals.contains(x) implies #[trigger] k.signals.contains(x) by {
            assert(k1.signals.contains(x));
        }
        if id == last {
            assert(u.peers[last] == unbound_peer(v.peers[last], n));
            if !k.peers.contains_key(last) {
                assert(k.signals[k.signals.len() - 1] == Signal::PeerShutdown(last));
            }
        }
    }
}

/// Removing a share kicks each of its participants: the kick is sent, the
/// share is gone, and the participant stays exactly when it has another
/// edge (no longer using the share), its cancellation signalled otherwise.
pub proof fn lemma_remove_share_kicks_participant(v: StateView, order: Seq<u32>, n: Seq<char>, id: u32)
    requires
        membership_invariant(v),
        v.shares.contains_key(n),
        crate::table::distinct(order),
        crate::table::set_of(order) == v.shares[n].participants,
        v.shares[n].participants.contains(id),
    ensures
        ({
            let w = remove_share_model(v, order, n);
            &&& !w.shares.contains_key(n)
            &&& w.signals.contains(Signal::Kicked(id, n))
            &&& w.peers.contains_key(id) == !idle(unbound_peer(v.peers[id], n))
            &&& w.peers.contains_key(id) ==> !w.peers[id].used_shares.contains(n)
            &&& !w.peers.contains_key(id) ==> w.signals.contains(Signal::PeerShutdown(id))
        }),
{
    assert forall|i: int| 0 <= i < order.len() implies v.shares[n].participants.contains(#[trigger] order[i]) by {
        assert(crate::table::set_of(order).contains(order[i]));
    }
    lemma_kick_all_peer(v, order, n, id);
    let k = kick_all(v, order, n);
    let r = StateView { shares: k.shares.remove(n), ..k };
    let w = close_check(r);
    assert forall|x: Signal| k.signals.contains(x) implies #[trigger] w.signals.contains(x) by {
        let j = choose|j: int| 0 <= j < k.signals.len() && k.signals[j] == x;
        assert(w.signals[j] == x);
    }
}

/// Mounting a share of a new peer lists it, owned by that peer, at the
/// given mount path; a second mount of the same name is refused, since the
/// name is then taken.
pub proof fn lemma_mount_lists_remote_share(
    v: StateView,
    id: u32,
    next: u32,
    address: PeerSocket,
    f: FullKey,
    mount_path: Seq<char>,
)
    ensures
        ({
            let w = new_remote_model(v, id, next, address, f, mount_path);
            &&& w.remote_shares.contains_key(f)
            &&& w.remote_shares[f] == (RemoteShareView { owner: id, name: f.1, mount_path })
            &&& w.peers[id].used_remote_shares == Set::<FullKey>::empty().insert(f)
            &&& w.peers[id].address == address
            &&& w.peers_by_socket[address] == id
            &&& w.shares == v.shares
        }),
{
}

/// A peer that joins a share becomes one of its participants.
pub proof fn lemma_joining_adds_participant(v: StateView, id: u32, next: u32, address: PeerSocket, n: Seq<char>)
    requires
        v.shares.contains_key(n),
    ensures
        new_peer_model(v, id, next, address, n).shares[n].participants == v.shares[n].participants.insert(id),
{
}

/// Exiting the only remote share of a peer that was created for it drops
/// the row and the peer, and signals the peer's cancellation.
pub proof fn lemma_exit_only_remote_share(
    v: StateView,
    id: u32,
    next: u32,
    address: PeerSocket,
    f: FullKey,
    mount_path: Seq<char>,
)
    ensures
        ({
            let w = exit_remote_model(new_remote_model(v, id, next, address, f, mount_path), id, f);
            &&& !w.remote_shares.contains_key(f)
            &&& !w.peers.contains_key(id)
            &&& !w.peers_by_socket.contains_key(address)
            &&& w.signals.contains(Signal::PeerShutdown(id))
        }),
{
    let m = new_remote_model(v, id, next, address, f, mount_path);
    let u = StateView {
        peers: m.peers.insert(id, PeerView {
            used_remote_shares: m.peers[id].used_remote_shares.remove(f),
            ..m.peers[id]
        }),
        remote_shares: m.remote_shares.remove(f),
        ..m
    };
    assert(u.peers[id].used_remote_shares =~= Set::<FullKey>::empty());
    assert(idle(u.peers[id]));
    let d = drop_if_idle(u, id);
    assert(d.signals[d.signals.len() - 1] == Signal::PeerShutdown(id));
    let w = close_check(d);
    assert(w.signals[d.signals.len() - 1] == Signal::PeerShutdown(id));
}

} // verus!
