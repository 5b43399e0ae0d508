use rdir::control::{
    connect_reply, finish_mount, handle_client_message, handle_kicked_from_share, handle_peer_init, ControlAction,
    PeerInitOutcome,
};
use rdir::messages::{
    ClientMessage, ConnectMessage, ConnectToRemoteShareErrorDto, PeerInitConnectToShareResponse, PeerInitMessage,
    ServerErrorDto, ServerResponse, ShareMessage,
};
use rdir::model::PeerSocket;
use rdir::shares::{CommonShareName, FullShareName, Ipv4Addr, ShareName, NETWORK_PORT};
use rdir::state::{Peer, State, StateNotification};
use smol::channel::{unbounded, Receiver};

fn peer_at(ip: [u8; 4]) -> (Peer, Receiver<()>, Receiver<StateNotification>) {
    let (shutdown_tx, shutdown_rx) = unbounded();
    let (notification_tx, notification_rx) = unbounded();
    let address = PeerSocket { ip: Ipv4Addr::from_octets(ip), port: NETWORK_PORT };
    (Peer::new(address, shutdown_tx, notification_tx), shutdown_rx, notification_rx)
}

fn reply(action: ControlAction) -> ServerResponse {
    match action {
        ControlAction::Reply(r) => r,
        ControlAction::Mount { .. } => panic!("unexpected mount"),
    }
}

fn share_foo() -> ClientMessage {
    ClientMessage::Share(ShareMessage::Share {
        path: "/tmp/x".to_string(),
        name: Some(CommonShareName::from_str("foo").unwrap()),
    })
}

#[test]
fn sharing_a_directory_lists_it_without_participants() {
    let mut state = State::new();
    let (tx, mut rx) = async_broadcast::broadcast(1);
    assert!(reply(handle_client_message(&mut state, share_foo(), &tx)).is_ok());
    match reply(handle_client_message(&mut state, ClientMessage::Ls, &tx)) {
        ServerResponse::Status { peers, remote_shares, shares } => {
            assert_eq!(peers.0.len(), 0);
            assert_eq!(remote_shares.0.len(), 0);
            assert_eq!(shares.0.len(), 1);
            assert_eq!(shares.0[0].name.as_str(), "foo");
            assert_eq!(shares.0[0].path, "/tmp/x");
            assert!(shares.0[0].participants.is_empty());
        }
        other => panic!("{other:?}"),
    }
    assert!(rx.try_recv().is_err());
}

#[test]
fn removing_the_last_share_stops_the_daemon() {
    let mut state = State::new();
    let (tx, mut rx) = async_broadcast::broadcast(1);
    reply(handle_client_message(&mut state, share_foo(), &tx));
    let remove = ClientMessage::Share(ShareMessage::Remove { name: CommonShareName::from_str("foo").unwrap() });
    assert!(reply(handle_client_message(&mut state, remove, &tx)).is_ok());
    assert!(rx.try_recv().is_ok());
}

#[test]
fn mounting_lists_the_remote_share_and_repeats_are_refused() {
    // host daemon advertises foo
    let mut host = State::new();
    let (host_tx, _host_rx) = async_broadcast::broadcast(1);
    reply(handle_client_message(&mut host, share_foo(), &host_tx));

    // mounter asks to mount 127.0.0.1/foo
    let mut mounter = State::new();
    let (tx, _rx) = async_broadcast::broadcast(1);
    let name = FullShareName::from_str("127.0.0.1/foo").unwrap();
    let mount = || {
        ClientMessage::Connect(ConnectMessage::Mount { path: "/mnt/y".to_string(), name: ShareName::Full(name.clone()) })
    };
    let (full, path) = match handle_client_message(&mut mounter, mount(), &tx) {
        ControlAction::Mount { name, path } => (name, path),
        ControlAction::Reply(r) => panic!("{r:?}"),
    };
    assert_eq!(full.to_string(), "127.0.0.1/foo");

    // the host takes the connect request from the mounter
    let (incoming, _s, _n) = peer_at([127, 0, 0, 2]);
    let outcome = handle_peer_init(&mut host, incoming, PeerInitMessage::ConnectToShare { name: full.name.clone() });
    assert!(matches!(outcome, PeerInitOutcome::Joined(_)));
    let answer = connect_reply(&outcome).unwrap();
    assert!(matches!(answer, PeerInitConnectToShareResponse::Accepted));

    // the mounter records the mount
    let (outgoing, _s2, _n2) = peer_at([127, 0, 0, 1]);
    assert!(finish_mount(&mut mounter, full, path, outgoing, answer).is_ok());
    match reply(handle_client_message(&mut mounter, ClientMessage::Connect(ConnectMessage::Ls), &tx)) {
        ServerResponse::LsMountedShares(d) => {
            assert_eq!(d.0.len(), 1);
            assert_eq!(d.0[0].0.to_string(), "127.0.0.1");
            assert_eq!(d.0[0].1.name.as_str(), "foo");
            assert_eq!(d.0[0].1.mount_path, "/mnt/y");
        }
        other => panic!("{other:?}"),
    }

    // a second mount of the same name
    match reply(handle_client_message(&mut mounter, mount(), &tx)) {
        ServerResponse::Failure(ServerErrorDto::ConnectToRemoteShare(ConnectToRemoteShareErrorDto::RepeatedRemoteShare(_))) => {}
        other => panic!("{other:?}"),
    }
}

#[test]
fn removing_a_share_kicks_the_mounter() {
    let mut host = State::new();
    let (host_tx, _host_rx) = async_broadcast::broadcast(1);
    reply(handle_client_message(&mut host, share_foo(), &host_tx));
    let (incoming, peer_shutdown, notifications) = peer_at([127, 0, 0, 2]);
    assert!(matches!(
        handle_peer_init(&mut host, incoming, PeerInitMessage::ConnectToShare { name: CommonShareName::from_str("foo").unwrap() }),
        PeerInitOutcome::Joined(_)
    ));

    let mut mounter = State::new();
    let (tx, _rx) = async_broadcast::broadcast(1);
    let name = FullShareName::from_str("127.0.0.1/foo").unwrap();
    let (outgoing, _s, _n) = peer_at([127, 0, 0, 1]);
    finish_mount(&mut mounter, name.clone(), "/mnt/y".to_string(), outgoing, PeerInitConnectToShareResponse::Accepted);

    let remove = ClientMessage::Share(ShareMessage::Remove { name: CommonShareName::from_str("foo").unwrap() });
    assert!(reply(handle_client_message(&mut host, remove, &host_tx)).is_ok());
    let kicked = match notifications.try_recv().unwrap() {
        StateNotification::KickedFromShare(n) => n,
    };
    assert_eq!(kicked.as_str(), "foo");
    assert!(peer_shutdown.try_recv().is_ok());

    // the mounter's peer task learns of the kick and drops the row
    let host = PeerSocket { ip: Ipv4Addr::from_octets([127, 0, 0, 1]), port: NETWORK_PORT };
    let owner = mounter.peer_id_by_socket(host).unwrap();
    assert!(handle_kicked_from_share(&mut mounter, owner, host, kicked, &tx));
    assert!(!mounter.has_peer(owner));
    let _ = name;
    match reply(handle_client_message(&mut mounter, ClientMessage::Connect(ConnectMessage::Ls), &tx)) {
        ServerResponse::LsMountedShares(d) => assert!(d.0.is_empty()),
        other => panic!("{other:?}"),
    }
}

#[test]
fn kill_during_a_handshake_signals_shutdown() {
    let mut state = State::new();
    let (tx, mut rx) = async_broadcast::broadcast(1);
    let mut initiator = snow::Builder::new("Noise_NN_25519_AESGCM_BLAKE2b".parse().unwrap()).build_initiator().unwrap();
    let first = rdir::noise::handshake_frame(&mut initiator).unwrap();
    assert!(first.len() > 2);
    assert!(reply(handle_client_message(&mut state, ClientMessage::Kill, &tx)).is_ok());
    assert!(rx.try_recv().is_ok());
    // the half-done handshake is abandoned
    assert_eq!(rdir::noise::handshake_step(&initiator), rdir::noise::HandshakeStep::Receive);
    drop(initiator);
}

#[test]
fn share_name_defaults_to_the_directory_name() {
    let mut state = State::new();
    let (tx, _rx) = async_broadcast::broadcast(1);
    let msg = ClientMessage::Share(ShareMessage::Share { path: "/tmp/x".to_string(), name: None });
    assert!(reply(handle_client_message(&mut state, msg, &tx)).is_ok());
    let names = state.share_names();
    assert_eq!(names.len(), 1);
    assert_eq!(names[0].as_str(), "x");

    let msg = ClientMessage::Share(ShareMessage::Share { path: "/".to_string(), name: None });
    assert!(matches!(
        reply(handle_client_message(&mut state, msg, &tx)),
        ServerResponse::Failure(ServerErrorDto::InvalidShareName)
    ));
    let long = format!("/tmp/{}", "n".repeat(61));
    let msg = ClientMessage::Share(ShareMessage::Share { path: long, name: None });
    assert!(matches!(
        reply(handle_client_message(&mut state, msg, &tx)),
        ServerResponse::Failure(ServerErrorDto::CommonShareNameParse(_))
    ));
    let msg = ClientMessage::Share(ShareMessage::Share { path: "/srv/x".to_string(), name: None });
    assert!(matches!(
        reply(handle_client_message(&mut state, msg, &tx)),
        ServerResponse::Failure(ServerErrorDto::RepeatedShare(_))
    ));
}

#[test]
fn other_requests() {
    let mut state = State::new();
    let (tx, mut rx) = async_broadcast::broadcast(1);
    assert!(reply(handle_client_message(&mut state, share_foo(), &tx)).is_ok());
    assert!(reply(handle_client_message(&mut state, ClientMessage::Ping, &tx)).is_ok());
    assert!(matches!(
        reply(handle_client_message(&mut state, ClientMessage::Discover, &tx)),
        ServerResponse::Failure(ServerErrorDto::Unsupported)
    ));
    let remove = ClientMessage::Share(ShareMessage::Remove { name: CommonShareName::from_str("bar").unwrap() });
    assert!(matches!(
        reply(handle_client_message(&mut state, remove, &tx)),
        ServerResponse::Failure(ServerErrorDto::ShareDoesntExit(_))
    ));
    let unmount = ClientMessage::Connect(ConnectMessage::Unmount {
        name: ShareName::Full(FullShareName::from_str("1.2.3.4/zz").unwrap()),
    });
    assert!(matches!(
        reply(handle_client_message(&mut state, unmount, &tx)),
        ServerResponse::Failure(ServerErrorDto::NoSuchRemoteShare(_))
    ));
    match reply(handle_client_message(&mut state, ClientMessage::Share(ShareMessage::Ls), &tx)) {
        ServerResponse::LsShares(d) => assert_eq!(d.0.len(), 1),
        other => panic!("{other:?}"),
    }
    assert!(rx.try_recv().is_err());
}

#[test]
fn peer_init_lists_and_refuses() {
    let mut host = State::new();
    let (tx, _rx) = async_broadcast::broadcast(1);
    reply(handle_client_message(&mut host, share_foo(), &tx));
    let (p, _s, _n) = peer_at([9, 9, 9, 9]);
    match handle_peer_init(&mut host, p, PeerInitMessage::ListShares) {
        PeerInitOutcome::Listed(l) => {
            assert_eq!(l.shares.len(), 1);
            assert_eq!(l.shares[0].as_str(), "foo");
        }
        _ => panic!("expected a list"),
    }
    let (p, _s, _n) = peer_at([9, 9, 9, 9]);
    let outcome = handle_peer_init(&mut host, p, PeerInitMessage::ConnectToShare { name: CommonShareName::from_str("nope").unwrap() });
    assert!(matches!(outcome, PeerInitOutcome::Refused(_)));
    assert!(matches!(connect_reply(&outcome), Some(PeerInitConnectToShareResponse::Rejected(_))));
    let mut mounter = State::new();
    let (p, _s, _n) = peer_at([9, 9, 9, 9]);
    let name = FullShareName::from_str("9.9.9.9/nope").unwrap();
    let rejected = connect_reply(&outcome).unwrap();
    assert!(matches!(
        finish_mount(&mut mounter, name, "/m".to_string(), p, rejected),
        ServerResponse::Failure(ServerErrorDto::ConnectToRemoteShare(ConnectToRemoteShareErrorDto::ShareDoesntExist(_)))
    ));
}

#[test]
fn read_only_requests_do_not_stop_an_empty_daemon() {
    let mut state = State::new();
    let (tx, mut rx) = async_broadcast::broadcast(4);
    for msg in [
        ClientMessage::Ls,
        ClientMessage::Ping,
        ClientMessage::Discover,
        ClientMessage::Share(ShareMessage::Ls),
        ClientMessage::Connect(ConnectMessage::Ls),
        ClientMessage::Share(ShareMessage::Remove { name: CommonShareName::from_str("x").unwrap() }),
    ] {
        reply(handle_client_message(&mut state, msg, &tx));
    }
    assert!(rx.try_recv().is_err());
}

#[test]
fn kick_for_an_unknown_share_changes_nothing() {
    let mut state = State::new();
    let (tx, mut rx) = async_broadcast::broadcast(1);
    let (peer, shutdown_rx, _n) = peer_at([5, 5, 5, 5]);
    finish_mount(
        &mut state,
        FullShareName::from_str("5.5.5.5/a").unwrap(),
        "/m".to_string(),
        peer,
        PeerInitConnectToShareResponse::Accepted,
    );
    let host = PeerSocket { ip: Ipv4Addr::from_octets([5, 5, 5, 5]), port: NETWORK_PORT };
    let id = state.peer_id_by_socket(host).unwrap();
    assert!(!handle_kicked_from_share(&mut state, id, host, CommonShareName::from_str("b").unwrap(), &tx));
    assert!(state.has_peer(id));
    assert!(shutdown_rx.try_recv().is_err());
    assert!(handle_kicked_from_share(&mut state, id, host, CommonShareName::from_str("a").unwrap(), &tx));
    assert!(shutdown_rx.try_recv().is_ok());
    assert!(rx.try_recv().is_ok());
}

#[test]
fn share_name_from_path_forms() {
    let mut state = State::new();
    let (tx, _rx) = async_broadcast::broadcast(1);
    for path in ["/srv/a/", "/srv/b/.", "c", "./d", "/srv//e"] {
        let msg = ClientMessage::Share(ShareMessage::Share { path: path.to_string(), name: None });
        assert!(reply(handle_client_message(&mut state, msg, &tx)).is_ok(), "{path}");
    }
    let names: Vec<String> = state.share_names().iter().map(|n| n.to_string()).collect();
    assert_eq!(names, vec!["a", "b", "c", "d", "e"]);
    for path in ["/srv/..", ".", "", "/"] {
        let msg = ClientMessage::Share(ShareMessage::Share { path: path.to_string(), name: None });
        assert!(matches!(
            reply(handle_client_message(&mut state, msg, &tx)),
            ServerResponse::Failure(ServerErrorDto::InvalidShareName)
        ), "{path}");
    }
}
