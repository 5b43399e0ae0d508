//! Requests and responses of the local control protocol, and the messages
//! that open a peer connection.

use vstd::prelude::*;
use crate::dto::{PeersDto, RemoteSharesDto, SharesDto};
use crate::shares::{CommonShareName, CommonShareNameParseError, ShareName};
use crate::state::{
    NewPeerConnectedToShareError, NoSuchRemoteShareError, RepeatedPeerError, RepeatedRemoteShareError,
    RepeatedShare, ShareDoesntExistError,
};

verus! {

/// A request of the command-line front-end.
#[derive(Clone, Debug)]
pub enum ClientMessage {
    Connect(ConnectMessage),
    Discover,
    Kill,
    Ls,
    Ping,
    Share(ShareMessage),
}

#[derive(Clone, Debug)]
pub enum ConnectMessage {
    Ls,
    Mount { path: String, name: ShareName },
    Unmount { name: ShareName },
}

#[derive(Clone, Debug)]
pub enum ShareMessage {
    Ls,
    Remove { name: CommonShareName },
    Share { path: String, name: Option<CommonShareName> },
}

/// The daemon's answer to one request.
#[derive(Clone, Debug)]
pub enum ServerResponse {
    Failure(ServerErrorDto),
    LsMountedShares(RemoteSharesDto),
    LsShares(SharesDto),
    Success,
    Pong,
    Status { peers: PeersDto, remote_shares: RemoteSharesDto, shares: SharesDto },
}

impl ServerResponse {
    pub fn is_ok(&self) -> (r: bool)
        ensures
            r == (*self is Success),
    {
        matches!(self, ServerResponse::Success)
    }

    pub fn is_err(&self) -> (r: bool)
        ensures
            r == (*self is Failure),
    {
        matches!(self, ServerResponse::Failure(_))
    }
}

/// The other side sent a message of an unexpected kind.
#[derive(Clone, Copy, Debug, PartialEq, Eq, Structural)]
pub struct ProtocolError;

#[derive(Clone, Debug)]
pub enum ServerErrorDto {
    CommonShareNameParse(CommonShareNameParseError),
    ConnectToRemoteShare(ConnectToRemoteShareErrorDto),
    InvalidShareName,
    NoSuchRemoteShare(NoSuchRemoteShareError),
    PeerIo(FramedErrorDto),
    RepeatedShare(RepeatedShare),
    ShareDoesntExit(ShareDoesntExistError),
    /// The request names a feature this daemon does not offer.
    Unsupported,
}

/// A transport failure, as text.
#[derive(Clone, Debug)]
pub enum FramedErrorDto {
    Crypto(String),
    Io(String),
}

#[derive(Clone, Debug)]
pub enum ConnectToRemoteShareErrorDto {
    Io(String),
    ShareDoesntExist(ShareDoesntExistError),
    RepeatedRemoteShare(RepeatedRemoteShareError),
    RepeatedPeer(RepeatedPeerError),
    ProtocolError(ProtocolError),
}

/// The first message on a new peer connection.
#[derive(Clone, Debug)]
pub enum PeerInitMessage {
    ConnectToShare { name: CommonShareName },
    ListShares,
}

#[derive(Clone, Copy, Debug)]
pub enum PeerInitConnectToShareResponse {
    Accepted,
    Rejected(NewPeerConnectedToShareError),
}

#[derive(Clone, Debug)]
pub struct PeerInitListSharesRosponse {
    pub shares: Vec<CommonShareName>,
}

/// Messages of the publish/subscribe test protocol.
#[derive(Clone, Debug)]
pub enum ServerMessage {
    Shutdown,
    Message { message: String },
}

/// Context of a channel opened inside a peer session.
#[derive(Clone, Debug)]
pub struct NewChannelCtx {
    pub share_name: CommonShareName,
}

} // verus!
