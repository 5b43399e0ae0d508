//! Decisions of the daemon: what a control request does to the state and
//! what it answers, and what the first message of a peer connection does.
//!
//! Network work (connecting to another daemon to mount one of its shares)
//! is not done here: the dispatcher hands it back as a [`ControlAction`],
//! and [`finish_mount`] takes the peer's answer.

use vstd::prelude::*;
use crate::dto::{peers_dto_matches, remote_shares_dto_matches, shares_dto_matches};
use crate::messages::{
    ClientMessage, ConnectMessage, ConnectToRemoteShareErrorDto, PeerInitConnectToShareResponse,
    PeerInitListSharesRosponse, PeerInitMessage, ServerErrorDto, ServerResponse, ShareMessage,
};
use crate::model::{
    FullKey, PeerSocket,
    Signal, StateView, add_share_model, exit_remote_model, idle, join_remote_model,
    new_peer_model, new_remote_model, remove_share_model,
};
use crate::shares::{
    CommonShareName, CommonShareNameParseError, FullShareName, RemotePeerAddr, ShareName, canonical_port, common_name_of,
    NETWORK_PORT,
};
use crate::state::{
    NewPeerConnectedToShareError, Peer, PeerId, RepeatedRemoteShareError, Share, State, name_views,
};
use crate::table::{distinct, set_of};

verus! {

/// The characters after the last `/` of `p`.
pub open spec fn last_segment(p: Seq<char>) -> Seq<char>
    decreases p.len(),
{
    if p.len() == 0 || p.last() == '/' {
        Seq::empty()
    } else {
        last_segment(p.drop_last()).push(p.last())
    }
}

/// The final component of a path: repeated and trailing separators and `.`
/// components are skipped; an empty path, a root, or a path that ends in
/// `..` has none.
pub open spec fn last_component(p: Seq<char>) -> Option<Seq<char>>
    decreases p.len(),
{
    if p.len() == 0 {
        None
    } else if p.last() == '/' {
        last_component(p.drop_last())
    } else if p.last() == '.' && (p.len() == 1 || p[p.len() - 2] == '/') {
        last_component(p.drop_last())
    } else if last_segment(p) == seq!['.', '.'] {
        None
    } else {
        Some(last_segment(p))
    }
}

/// Relies on std::path::Path::file_name: the final component of the path,
/// with `Path::components`' normalization (repeated separators and `.`
/// components skipped); none for a root or a path that ends in `..`. A
/// `&str` path is valid UTF-8, so the lossy conversion keeps it as is.
#[verifier::external_body]
fn file_name_of(path: &str) -> (r: Option<String>)
    ensures
        match r {
            Some(s) => last_component(path@) == Some(s@),
            None => last_component(path@) is None,
        },
{
    std::path::Path::new(path).file_name().map(|n| n.to_string_lossy().into_owned())
}

/// What the dispatcher leaves to its caller.
pub enum ControlAction {
    /// Send this response.
    Reply(ServerResponse),
    /// Connect to the host of `name`, ask to join the share, and hand the
    /// answer to [`finish_mount`].
    Mount { name: FullShareName, path: String },
}

pub open spec fn opt_name_view(n: Option<CommonShareName>) -> Option<Seq<char>> {
    match n {
        Some(x) => Some(x@),
        None => None,
    }
}

pub open spec fn opt_string_view(s: Option<String>) -> Option<Seq<char>> {
    match s {
        Some(x) => Some(x@),
        None => None,
    }
}

/// The name a new share gets: the one given, else the last component of
/// its path.
pub open spec fn resolved_name(name: Option<Seq<char>>, file_name: Option<Seq<char>>) -> Result<Seq<char>, ServerErrorDto> {
    match name {
        Some(n) => Ok(n),
        None => match file_name {
            None => Err(ServerErrorDto::InvalidShareName),
            Some(f) => match common_name_of(f) {
                Ok(n) => Ok(n),
                Err(e) => Err(ServerErrorDto::CommonShareNameParse(e)),
            },
        },
    }
}

/// Picks the name of a new share from the request and the path's last
/// component.
pub fn resolve_share_name(name: Option<CommonShareName>, file_name: Option<String>) -> (r: Result<CommonShareName, ServerErrorDto>)
    ensures
        match r {
            Ok(n) => resolved_name(opt_name_view(name), opt_string_view(file_name)) == Ok::<Seq<char>, ServerErrorDto>(n@),
            Err(e) => resolved_name(opt_name_view(name), opt_string_view(file_name)) == Err::<Seq<char>, ServerErrorDto>(e),
        },
{
    match name {
        Some(n) => Ok(n),
        None => match file_name {
            None => Err(ServerErrorDto::InvalidShareName),
            Some(f) => match CommonShareName::from_str(f.as_str()) {
                Ok(n) => Ok(n),
                Err(e) => Err(ServerErrorDto::CommonShareNameParse(e)),
            },
        },
    }
}

/// The error a daemon reports when a peer refuses to let it join.
pub open spec fn refusal_dto(e: NewPeerConnectedToShareError) -> ConnectToRemoteShareErrorDto {
    match e {
        NewPeerConnectedToShareError::RepeatedPeer(x) => ConnectToRemoteShareErrorDto::RepeatedPeer(x),
        NewPeerConnectedToShareError::ShareDoesntExist(x) => ConnectToRemoteShareErrorDto::ShareDoesntExist(x),
    }
}

pub fn refusal_to_dto(e: NewPeerConnectedToShareError) -> (r: ConnectToRemoteShareErrorDto)
    ensures
        r == refusal_dto(e),
{
    match e {
        NewPeerConnectedToShareError::RepeatedPeer(x) => ConnectToRemoteShareErrorDto::RepeatedPeer(x),
        NewPeerConnectedToShareError::ShareDoesntExist(x) => ConnectToRemoteShareErrorDto::ShareDoesntExist(x),
    }
}

/// Handles one control request of the front-end.
pub fn handle_client_message(
    state: &mut State,
    message: ClientMessage,
    shutdown_tx: &async_broadcast::Sender<()>,
) -> (r: ControlAction)
    requires
        old(state).wf(),
    ensures
        final(state).wf(),
        match message {
            ClientMessage::Connect(ConnectMessage::Ls) => match r {
                ControlAction::Reply(ServerResponse::LsMountedShares(d)) =>
                    remote_shares_dto_matches(d, old(state)@.remote_shares)
                    && final(state)@ == old(state)@,
                _ => false,
            },
            ClientMessage::Connect(ConnectMessage::Mount { path, name: ShareName::Full(f) }) =>
                if old(state)@.remote_shares.contains_key(f@) {
                    r matches ControlAction::Reply(ServerResponse::Failure(ServerErrorDto::ConnectToRemoteShare(
                        ConnectToRemoteShareErrorDto::RepeatedRemoteShare(_))))
                    && final(state)@ == old(state)@
                } else {
                    match r {
                        ControlAction::Mount { name: n, path: p } => n@ == f@ && p@ == path@
                            && final(state)@ == old(state)@,
                        _ => false,
                    }
                },
            ClientMessage::Connect(ConnectMessage::Unmount { name: ShareName::Full(f) }) =>
                if old(state)@.remote_shares.contains_key(f@) {
                    r matches ControlAction::Reply(ServerResponse::Success)
                    && final(state)@ == exit_remote_model(old(state)@, old(state)@.remote_shares[f@].owner, f@)
                } else {
                    r matches ControlAction::Reply(ServerResponse::Failure(ServerErrorDto::NoSuchRemoteShare(_)))
                    && final(state)@ == old(state)@
                },
            ClientMessage::Connect(_) | ClientMessage::Discover =>
                r matches ControlAction::Reply(ServerResponse::Failure(ServerErrorDto::Unsupported))
                && final(state)@ == old(state)@,
            ClientMessage::Kill =>
                r matches ControlAction::Reply(ServerResponse::Success)
                && final(state)@ == (StateView { signals: old(state)@.signals.push(Signal::ServerShutdown), ..old(state)@ }),
            ClientMessage::Ls => match r {
                ControlAction::Reply(ServerResponse::Status { peers, remote_shares, shares }) =>
                    peers_dto_matches(peers, old(state)@.peers)
                    && remote_shares_dto_matches(remote_shares, old(state)@.remote_shares)
                    && shares_dto_matches(shares, old(state)@.shares)
                    && final(state)@ == old(state)@,
                _ => false,
            },
            ClientMessage::Ping =>
                r matches ControlAction::Reply(ServerResponse::Success)
                && final(state)@ == old(state)@,
            ClientMessage::Share(ShareMessage::Ls) => match r {
                ControlAction::Reply(ServerResponse::LsShares(d)) =>
                    shares_dto_matches(d, old(state)@.shares) && final(state)@ == old(state)@,
                _ => false,
            },
            ClientMessage::Share(ShareMessage::Remove { name }) =>
                if old(state)@.shares.contains_key(name@) {
                    r matches ControlAction::Reply(ServerResponse::Success)
                    && exists|order: Seq<u32>| #![trigger remove_share_model(old(state)@, order, name@)]
                        distinct(order) && set_of(order) == old(state)@.shares[name@].participants
                        && final(state)@ == remove_share_model(old(state)@, order, name@)
                } else {
                    r matches ControlAction::Reply(ServerResponse::Failure(ServerErrorDto::ShareDoesntExit(_)))
                    && final(state)@ == old(state)@
                },
            ClientMessage::Share(ShareMessage::Share { path, name }) =>
                match resolved_name(opt_name_view(name), last_component(path@)) {
                    Err(e) => r == ControlAction::Reply(ServerResponse::Failure(e))
                        && final(state)@ == old(state)@,
                    Ok(n) => if old(state)@.shares.contains_key(n) {
                        r matches ControlAction::Reply(ServerResponse::Failure(ServerErrorDto::RepeatedShare(_)))
                        && final(state)@ == old(state)@
                    } else {
                        r matches ControlAction::Reply(ServerResponse::Success)
                        && final(state)@ == add_share_model(old(state)@, n, path@)
                    },
                },
        },
{
    match message {
        ClientMessage::Connect(ConnectMessage::Ls) => {
            let d = state.remote_shares_dto();
            ControlAction::Reply(ServerResponse::LsMountedShares(d))
        },
        ClientMessage::Connect(ConnectMessage::Mount { path, name: ShareName::Full(f) }) => {
            if state.has_remote_share(&f) {
                ControlAction::Reply(ServerResponse::Failure(ServerErrorDto::ConnectToRemoteShare(
                    ConnectToRemoteShareErrorDto::RepeatedRemoteShare(RepeatedRemoteShareError),
                )))
            } else {
                ControlAction::Mount { name: f, path }
            }
        },
        ClientMessage::Connect(ConnectMessage::Unmount { name: ShareName::Full(f) }) => {
            match state.remote_share_owner(&f) {
                Some(owner) => {
                    proof {
                        crate::state::State::lemma_invariant(&*state);
                    }
                    let res = state.exit_remote_share(owner, f, shutdown_tx);
                    proof {
                        assert(res is Ok);
                    }
                    ControlAction::Reply(ServerResponse::Success)
                },
                None => ControlAction::Reply(ServerResponse::Failure(ServerErrorDto::NoSuchRemoteShare(
                    crate::state::NoSuchRemoteShareError,
                ))),
            }
        },
        ClientMessage::Connect(_) | ClientMessage::Discover => {
            ControlAction::Reply(ServerResponse::Failure(ServerErrorDto::Unsupported))
        },
        ClientMessage::Kill => {
            state.request_shutdown(shutdown_tx);
            ControlAction::Reply(ServerResponse::Success)
        },
        ClientMessage::Ls => {
            let peers = state.peers_dto();
            let remote_shares = state.remote_shares_dto();
            let shares = state.shares_dto();
            ControlAction::Reply(ServerResponse::Status { peers, remote_shares, shares })
        },
        ClientMessage::Ping => ControlAction::Reply(ServerResponse::Success),
        ClientMessage::Share(ShareMessage::Ls) => {
            let d = state.shares_dto();
            ControlAction::Reply(ServerResponse::LsShares(d))
        },
        ClientMessage::Share(ShareMessage::Remove { name }) => {
            match state.remove_share(&name, shutdown_tx) {
                Ok(()) => ControlAction::Reply(ServerResponse::Success),
                Err(e) => ControlAction::Reply(ServerResponse::Failure(ServerErrorDto::ShareDoesntExit(e))),
            }
        },
        ClientMessage::Share(ShareMessage::Share { path, name }) => {
            let file_name = match name {
                Some(_) => None,
                None => file_name_of(path.as_str()),
            };
            let resolved = resolve_share_name(name, file_name);
            let response = match resolved {
                Err(e) => ServerResponse::Failure(e),
                Ok(n) => {
                    let share = Share::new(n, path);
                    match state.add_share(share) {
                        Ok(()) => ServerResponse::Success,
                        Err(e) => ServerResponse::Failure(ServerErrorDto::RepeatedShare(e)),
                    }
                },
            };
            ControlAction::Reply(response)
        },
    }
}

/// Completes a mount once the remote daemon answered `response` to the
/// request to join the share `name`. `peer` is the remote daemon, as yet
/// unbound.
pub fn finish_mount(
    state: &mut State,
    name: FullShareName,
    path: String,
    peer: Peer,
    response: PeerInitConnectToShareResponse,
) -> (r: ServerResponse)
    requires
        old(state).wf(),
        old(state).spec_peer_count() < 0xFFFF_FFFF,
        peer.wf(),
        idle(peer@),
    ensures
        final(state).wf(),
        match response {
            PeerInitConnectToShareResponse::Rejected(e) =>
                r == ServerResponse::Failure(ServerErrorDto::ConnectToRemoteShare(refusal_dto(e)))
                && final(state)@ == old(state)@,
            PeerInitConnectToShareResponse::Accepted =>
                if old(state)@.remote_shares.contains_key(name@) {
                    r matches ServerResponse::Failure(ServerErrorDto::ConnectToRemoteShare(
                        ConnectToRemoteShareErrorDto::RepeatedRemoteShare(_)))
                    && final(state)@ == old(state)@
                } else if old(state)@.peers_by_socket.contains_key(peer@.address) {
                    r matches ServerResponse::Success
                    && final(state)@ == join_remote_model(old(state)@, old(state)@.peers_by_socket[peer@.address], name@, path@)
                } else {
                    r matches ServerResponse::Success
                    && exists|id: u32| #![trigger old(state)@.peers.contains_key(id)]
                        !old(state)@.peers.contains_key(id)
                        && final(state)@ == new_remote_model(old(state)@, id, final(state)@.next_peer_id, peer@.address, name@, path@)
                },
        },
{
    match response {
        PeerInitConnectToShareResponse::Rejected(e) => {
            ServerResponse::Failure(ServerErrorDto::ConnectToRemoteShare(refusal_to_dto(e)))
        },
        PeerInitConnectToShareResponse::Accepted => {
            if state.has_remote_share(&name) {
                return ServerResponse::Failure(ServerErrorDto::ConnectToRemoteShare(
                    ConnectToRemoteShareErrorDto::RepeatedRemoteShare(RepeatedRemoteShareError),
                ));
            }
            match state.peer_id_by_socket(peer.socket()) {
                Some(id) => {
                    proof {
                        crate::state::State::lemma_invariant(&*state);
                    }
                    match state.join_remote_share(id, name, path) {
                        Ok(()) => ServerResponse::Success,
                        Err(e) => ServerResponse::Failure(ServerErrorDto::ConnectToRemoteShare(
                            ConnectToRemoteShareErrorDto::RepeatedRemoteShare(e),
                        )),
                    }
                },
                None => {
                    match state.join_remote_share_new(peer, name, path) {
                        Ok(_) => ServerResponse::Success,
                        Err(e) => ServerResponse::Failure(ServerErrorDto::ConnectToRemoteShare(
                            ConnectToRemoteShareErrorDto::RepeatedRemoteShare(e),
                        )),
                    }
                },
            }
        },
    }
}

/// What the first message of an incoming peer connection led to.
pub enum PeerInitOutcome {
    /// The peer joined the share; reply `Ok` and run the peer's session.
    Joined(PeerId),
    /// Reply with this error and close.
    Refused(NewPeerConnectedToShareError),
    /// Reply with the list and close.
    Listed(PeerInitListSharesRosponse),
}

/// Handles the first message of an incoming peer connection; `peer` is the
/// connecting daemon, as yet unbound.
pub fn handle_peer_init(state: &mut State, peer: Peer, message: PeerInitMessage) -> (r: PeerInitOutcome)
    requires
        old(state).wf(),
        old(state).spec_peer_count() < 0xFFFF_FFFF,
        peer.wf(),
        idle(peer@),
    ensures
        final(state).wf(),
        match message {
            PeerInitMessage::ListShares => match r {
                PeerInitOutcome::Listed(l) => distinct(name_views(l.shares@))
                    && crate::order::texts_sorted(name_views(l.shares@))
                    && set_of(name_views(l.shares@)) == old(state)@.shares.dom()
                    && final(state)@ == old(state)@,
                _ => false,
            },
            PeerInitMessage::ConnectToShare { name } => match r {
                PeerInitOutcome::Refused(NewPeerConnectedToShareError::RepeatedPeer(_)) =>
                    old(state)@.peers_by_socket.contains_key(peer@.address) && final(state)@ == old(state)@,
                PeerInitOutcome::Refused(NewPeerConnectedToShareError::ShareDoesntExist(_)) =>
                    !old(state)@.peers_by_socket.contains_key(peer@.address)
                    && !old(state)@.shares.contains_key(name@) && final(state)@ == old(state)@,
                PeerInitOutcome::Joined(id) => !old(state)@.peers_by_socket.contains_key(peer@.address)
                    && old(state)@.shares.contains_key(name@) && !old(state)@.peers.contains_key(id.0)
                    && final(state)@ == new_peer_model(old(state)@, id.0, final(state)@.next_peer_id, peer@.address, name@),
                _ => false,
            },
        },
{
    match message {
        PeerInitMessage::ListShares => PeerInitOutcome::Listed(PeerInitListSharesRosponse { shares: state.share_names() }),
        PeerInitMessage::ConnectToShare { name } => match state.new_peer_connected_to_share(peer, name) {
            Ok(id) => PeerInitOutcome::Joined(id),
            Err(e) => PeerInitOutcome::Refused(e),
        },
    }
}

/// The reply to a connect request, for an outcome of one.
pub fn connect_reply(outcome: &PeerInitOutcome) -> (r: Option<PeerInitConnectToShareResponse>)
    ensures
        match *outcome {
            PeerInitOutcome::Joined(_) => r == Some(PeerInitConnectToShareResponse::Accepted),
            PeerInitOutcome::Refused(e) => r == Some(PeerInitConnectToShareResponse::Rejected(e)),
            PeerInitOutcome::Listed(_) => r is None,
        },
{
    match outcome {
        PeerInitOutcome::Joined(_) => Some(PeerInitConnectToShareResponse::Accepted),
        PeerInitOutcome::Refused(e) => Some(PeerInitConnectToShareResponse::Rejected(*e)),
        PeerInitOutcome::Listed(_) => None,
    }
}

/// The remote share that a host means when it reports `KickedFromShare`
/// for `name` over the session with it at `host`.
pub open spec fn kicked_key(host: PeerSocket, name: Seq<char>) -> FullKey {
    (RemotePeerAddr { addr: host.ip, port: canonical_port(host.port) }, name)
}

/// The host at `host` kicked this daemon from its share `name`: the
/// matching remote share of peer `peer_id`, if it is mounted, is exited.
/// Returns whether it was.
pub fn handle_kicked_from_share(
    state: &mut State,
    peer_id: PeerId,
    host: PeerSocket,
    name: CommonShareName,
    shutdown_tx: &async_broadcast::Sender<()>,
) -> (r: bool)
    requires
        old(state).wf(),
    ensures
        final(state).wf(),
        if old(state)@.peers.contains_key(peer_id.0)
            && old(state)@.peers[peer_id.0].used_remote_shares.contains(kicked_key(host, name@)) {
            r && final(state)@ == exit_remote_model(old(state)@, peer_id.0, kicked_key(host, name@))
        } else {
            !r && final(state)@ == old(state)@
        },
{
    let port = if host.port == NETWORK_PORT { None } else { Some(host.port) };
    let key = FullShareName { addr: RemotePeerAddr { addr: host.ip, port }, name };
    if !state.has_peer(peer_id) {
        return false;
    }
    state.exit_remote_share(peer_id, key, shutdown_tx).is_ok()
}

} // verus!
