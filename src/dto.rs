//! Owned snapshots of the membership state, as the control plane reports
//! them.

use vstd::prelude::*;
use crate::model::{PeerSocket, PeerView, RemoteShareView, ShareView};
use crate::table::{table, unique_keys};
use crate::shares::{CommonShareName, RemotePeerAddr};
use crate::state::{PeerId, id_views};
use crate::table::set_of;

verus! {

/// One local share.
#[derive(Clone, Debug)]
pub struct ShareDto {
    pub name: CommonShareName,
    pub path: String,
    pub participants: Vec<PeerId>,
}

impl View for ShareDto {
    type V = ShareView;

    open spec fn view(&self) -> ShareView {
        ShareView { path: self.path@, participants: set_of(id_views(self.participants@)) }
    }
}

/// The local shares.
#[derive(Clone, Debug)]
pub struct SharesDto(pub Vec<ShareDto>);

/// One remote share mounted here.
#[derive(Clone, Debug)]
pub struct RemoteShareDto {
    pub name: CommonShareName,
    pub mount_path: String,
}

/// The remote shares, one row per share with the address of its host.
#[derive(Clone, Debug)]
pub struct RemoteSharesDto(pub Vec<(RemotePeerAddr, RemoteShareDto)>);

/// A row of [`RemoteSharesDto`] as its full name and mount path.
pub open spec fn remote_row(e: (RemotePeerAddr, RemoteShareDto)) -> ((RemotePeerAddr, Seq<char>), Seq<char>) {
    ((e.0, e.1.name@), e.1.mount_path@)
}

/// The live peers and their socket addresses.
#[derive(Clone, Debug)]
pub struct PeersDto(pub Vec<(PeerId, PeerSocket)>);

/// `d` lists exactly the shares of `m`.
pub open spec fn shares_dto_matches(d: SharesDto, m: Map<Seq<char>, ShareView>) -> bool {
    &&& unique_keys(share_rows(d.0@))
    &&& table(share_rows(d.0@)) == m
    &&& crate::order::texts_sorted(share_rows(d.0@).map_values(|e: (Seq<char>, ShareView)| e.0))
    &&& forall|i: int| 0 <= i < d.0@.len() ==> crate::state::ids_ascending(#[trigger] d.0@[i].participants@)
}

/// `d` lists exactly the peers of `m` with their addresses.
pub open spec fn peers_dto_matches(d: PeersDto, m: Map<u32, PeerView>) -> bool {
    &&& unique_keys(peer_rows(d.0@))
    &&& table(peer_rows(d.0@)) == m.map_values(|p: PeerView| p.address)
    &&& forall|a: int, b: int| 0 <= a < b < d.0@.len() ==> d.0@[a].0.0 < d.0@[b].0.0
}

/// `d` lists exactly the remote shares of `m` with their mount paths.
pub open spec fn remote_shares_dto_matches(d: RemoteSharesDto, m: Map<(RemotePeerAddr, Seq<char>), RemoteShareView>) -> bool {
    &&& unique_keys(remote_rows(d.0@))
    &&& table(remote_rows(d.0@)) == m.map_values(|v: RemoteShareView| v.mount_path)
    &&& crate::order::full_keys_sorted(remote_rows(d.0@).map_values(|e: ((RemotePeerAddr, Seq<char>), Seq<char>)| e.0))
}

pub open spec fn share_rows(s: Seq<ShareDto>) -> Seq<(Seq<char>, ShareView)> {
    s.map_values(|x: ShareDto| (x.name@, x@))
}

pub open spec fn peer_rows(s: Seq<(PeerId, PeerSocket)>) -> Seq<(u32, PeerSocket)> {
    s.map_values(|e: (PeerId, PeerSocket)| (e.0.0, e.1))
}

pub open spec fn remote_rows(s: Seq<(RemotePeerAddr, RemoteShareDto)>) -> Seq<((RemotePeerAddr, Seq<char>), Seq<char>)> {
    s.map_values(|e: (RemotePeerAddr, RemoteShareDto)| remote_row(e))
}

} // verus!
