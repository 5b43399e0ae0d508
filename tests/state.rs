use rdir::model::PeerSocket;
use rdir::shares::{CommonShareName, FullShareName, Ipv4Addr, NETWORK_PORT};
use rdir::state::{
    KickPeerFromShareError, NewPeerConnectedToShareError, Peer, PeerConnectedToShareError, PeerDisconnectedFromShareError,
    PeerId, RepeatedShare, Share, State, StateNotification,
};
use smol::channel::{unbounded, Receiver};

fn new_peer(id: u8) -> (Peer, Receiver<()>, Receiver<StateNotification>) {
    let address = PeerSocket { ip: Ipv4Addr(id, id, id, id), port: NETWORK_PORT };
    let (shutdown_tx, shutdown_rx) = unbounded();
    let (notification_tx, notification_rx) = unbounded();
    let peer = Peer::new(address, shutdown_tx, notification_tx);
    (peer, shutdown_rx, notification_rx)
}

fn name(s: &str) -> CommonShareName {
    CommonShareName::from_str(s).unwrap()
}

#[test]
fn managing_shares() {
    let mut state = State::default();
    let (shutdown_tx, mut shutdown_rx) = async_broadcast::broadcast(1);
    let a_name = name("A");
    let b_name = name("B");
    let c_name = name("C");
    let share1 = Share::new(a_name.clone(), "/1".to_string());
    let share2 = Share::new(a_name.clone(), "/2".to_string());
    let share3 = Share::new(b_name.clone(), "/2".to_string());

    assert!(state.add_share(share1).is_ok());
    assert_eq!(state.add_share(share2), Err(RepeatedShare));
    assert!(state.add_share(share3).is_ok());
    assert_eq!(state.share_count(), 2);

    state.remove_share(&a_name, &shutdown_tx).unwrap();
    assert!(shutdown_rx.try_recv().is_err());
    state.remove_share(&b_name, &shutdown_tx).unwrap();
    assert!(shutdown_rx.try_recv().is_ok());
    assert!(state.remove_share(&c_name, &shutdown_tx).is_err());
    assert_eq!(state.share_count(), 0);
}

#[test]
fn connect_and_disconnect_peer_to_share() {
    let mut state = State::default();
    let share_name1 = name("A");
    let share1 = Share::new(share_name1.clone(), "/".to_string());
    let share_name2 = name("B");
    let share2 = Share::new(share_name2.clone(), "/".to_string());
    state.add_share(share1).unwrap();
    state.add_share(share2).unwrap();
    let (peer, shutdown_rx, _) = new_peer(1);

    let peer_id = state.new_peer_connected_to_share(peer, share_name1.clone()).unwrap();
    let (used_shares, used_remote_shares) = state.peer_memberships(peer_id).unwrap();
    assert_eq!(used_remote_shares, 0);
    assert_eq!(used_shares, 1);
    state.peer_connected_to_share(peer_id, share_name2.clone()).unwrap();
    let (used_shares, used_remote_shares) = state.peer_memberships(peer_id).unwrap();
    assert_eq!(used_remote_shares, 0);
    assert_eq!(used_shares, 2);
    // Now peer uses 2 shares

    state.peer_disconnected_from_share(peer_id, share_name1.clone()).unwrap();
    assert!(state.has_peer(peer_id));

    state.peer_disconnected_from_share(peer_id, share_name1.clone()).unwrap_err();
    assert!(shutdown_rx.try_recv().is_err());

    state.peer_disconnected_from_share(peer_id, share_name2.clone()).unwrap();
    assert!(!state.has_peer(peer_id));
    assert!(shutdown_rx.try_recv().is_ok());
}

#[test]
fn remove_share() {
    let mut state = State::default();
    let (server_shutdown_tx, mut server_shutdown_rx) = async_broadcast::broadcast(1);
    let share_name1 = name("A");
    let share1 = Share::new(share_name1.clone(), "/".to_string());
    let share_name2 = name("B");
    let share2 = Share::new(share_name2.clone(), "/".to_string());
    state.add_share(share1).unwrap();
    state.add_share(share2).unwrap();
    let (peer, shutdown_rx, notification_rx) = new_peer(1);

    let peer_id = state.new_peer_connected_to_share(peer, share_name1.clone()).unwrap();
    state.peer_connected_to_share(peer_id, share_name2.clone()).unwrap();

    state.remove_share(&share_name1, &server_shutdown_tx).unwrap();
    assert!(server_shutdown_rx.try_recv().is_err());
    assert!(state.has_peer(peer_id));
    assert!(notification_rx.try_recv().unwrap().is_kicked_from_share());
    assert!(shutdown_rx.try_recv().is_err());

    state.remove_share(&share_name2, &server_shutdown_tx).unwrap();
    assert!(server_shutdown_rx.try_recv().is_ok());
    assert!(!state.has_peer(peer_id));
    assert!(notification_rx.try_recv().unwrap().is_kicked_from_share());
    assert!(shutdown_rx.try_recv().is_ok());
}

#[test]
fn peer_errors() {
    let mut state = State::new();
    let a = name("A");
    state.add_share(Share::new(a.clone(), "/a".to_string())).unwrap();
    let (peer, _s, _n) = new_peer(2);
    assert_eq!(
        state.new_peer_connected_to_share(peer, name("missing")).unwrap_err(),
        NewPeerConnectedToShareError::ShareDoesntExist(rdir::state::ShareDoesntExistError)
    );
    let (peer, _s1, _n1) = new_peer(2);
    let id = state.new_peer_connected_to_share(peer, a.clone()).unwrap();
    let (again, _s2, _n2) = new_peer(2);
    assert!(matches!(
        state.new_peer_connected_to_share(again, a.clone()),
        Err(NewPeerConnectedToShareError::RepeatedPeer(_))
    ));
    assert!(matches!(
        state.peer_connected_to_share(PeerId(id.0.wrapping_add(100)), a.clone()),
        Err(PeerConnectedToShareError::PeerDoesntExist(_))
    ));
    assert!(matches!(
        state.peer_connected_to_share(id, name("missing")),
        Err(PeerConnectedToShareError::ShareDoesntExist(_))
    ));
    assert!(matches!(
        state.peer_disconnected_from_share(id, name("missing")),
        Err(PeerDisconnectedFromShareError::ShareDoesntExist(_))
    ));
    // connecting twice keeps a single edge
    state.peer_connected_to_share(id, a.clone()).unwrap();
    assert_eq!(state.shares_dto().0[0].participants.len(), 1);
}

#[test]
fn kick_notifies_then_drops() {
    let mut state = State::new();
    let a = name("A");
    state.add_share(Share::new(a.clone(), "/a".to_string())).unwrap();
    let (peer, shutdown_rx, notification_rx) = new_peer(3);
    let id = state.new_peer_connected_to_share(peer, a.clone()).unwrap();
    assert!(matches!(
        state.kick_peer_from_share(id, name("B")),
        Err(KickPeerFromShareError::ShareDoesntExist(_))
    ));
    state.kick_peer_from_share(id, a.clone()).unwrap();
    match notification_rx.try_recv().unwrap() {
        StateNotification::KickedFromShare(n) => assert_eq!(n.as_str(), "A"),
    }
    assert!(shutdown_rx.try_recv().is_ok());
    assert!(!state.has_peer(id));
}

#[test]
fn disconnect_from_unused_share_is_refused() {
    let mut state = State::new();
    let a = name("A");
    let b = name("B");
    state.add_share(Share::new(a.clone(), "/a".to_string())).unwrap();
    state.add_share(Share::new(b.clone(), "/b".to_string())).unwrap();
    let (peer, _s, _n) = new_peer(4);
    let id = state.new_peer_connected_to_share(peer, a.clone()).unwrap();
    assert!(matches!(
        state.peer_disconnected_from_share(id, b.clone()),
        Err(PeerDisconnectedFromShareError::PeerNotUsingShare(_))
    ));
    assert!(matches!(
        state.kick_peer_from_share(id, b),
        Err(KickPeerFromShareError::PeerNotUsingShare(_))
    ));
    assert!(state.has_peer(id));
}

#[test]
fn peer_ids_are_distinct_and_dtos_list_everything() {
    let mut state = State::new();
    let a = name("A");
    state.add_share(Share::new(a.clone(), "/srv/a".to_string())).unwrap();
    let (peer_one, _s1, _n1) = new_peer(1);
    let (peer_two, _s2, _n2) = new_peer(2);
    let id1 = state.new_peer_connected_to_share(peer_one, a.clone()).unwrap();
    let id2 = state.new_peer_connected_to_share(peer_two, a.clone()).unwrap();
    assert_ne!(id1, id2);
    let peers = state.peers_dto();
    assert_eq!(peers.0.len(), 2);
    let shares = state.shares_dto();
    assert_eq!(shares.0.len(), 1);
    assert_eq!(shares.0[0].path, "/srv/a");
    assert_eq!(shares.0[0].participants.len(), 2);
    assert_eq!(state.peer_count(), 2);
    assert_eq!(state.share_names().len(), 1);
}

#[test]
fn exit_remote_share_drops_owner() {
    let mut state = State::new();
    let (tx, mut rx) = async_broadcast::broadcast(1);
    let (peer, shutdown_rx, _n) = new_peer(127);
    let f = FullShareName::from_str("127.127.127.127/foo").unwrap();
    let id = state.join_remote_share_new(peer, f.clone(), "/mnt/y".to_string()).unwrap();
    let g = FullShareName::from_str("127.127.127.127/bar").unwrap();
    state.join_remote_share(id, g.clone(), "/mnt/z".to_string()).unwrap();
    assert!(state.join_remote_share(id, g.clone(), "/mnt/z".to_string()).is_err());
    assert_eq!(state.remote_shares_dto().0.len(), 2);
    state.exit_remote_share(id, f.clone(), &tx).unwrap();
    assert!(state.has_peer(id));
    assert!(state.exit_remote_share(id, f.clone(), &tx).is_err());
    state.exit_remote_share(id, g, &tx).unwrap();
    assert!(!state.has_peer(id));
    assert!(shutdown_rx.try_recv().is_ok());
    assert!(rx.try_recv().is_ok());
}

#[test]
fn snapshots_are_ordered() {
    let mut state = State::new();
    for n in ["b", "A", "a", "ab", "é"] {
        state.add_share(Share::new(name(n), format!("/{n}"))).unwrap();
    }
    let names: Vec<String> = state.shares_dto().0.iter().map(|d| d.name.to_string()).collect();
    assert_eq!(names, vec!["A", "a", "ab", "b", "é"]);

    let (peer_one, _s1, _n1) = new_peer(9);
    let (peer_two, _s2, _n2) = new_peer(3);
    let id1 = state.new_peer_connected_to_share(peer_one, name("a")).unwrap();
    let id2 = state.new_peer_connected_to_share(peer_two, name("a")).unwrap();
    let ids: Vec<u32> = state.peers_dto().0.iter().map(|(id, _)| id.0).collect();
    assert_eq!(ids, vec![id1.0.min(id2.0), id1.0.max(id2.0)]);

    let (peer_three, _s3, _n3) = new_peer(50);
    let z = FullShareName::from_str("10.0.0.2/z").unwrap();
    let id3 = state.join_remote_share_new(peer_three, z, "/mnt/z".to_string()).unwrap();
    for text in ["10.0.0.2:80/a", "10.0.0.2/b", "9.0.0.1/a"] {
        let f = FullShareName::from_str(text).unwrap();
        state.join_remote_share(id3, f, "/mnt".to_string()).unwrap();
    }
    let rows: Vec<String> = state
        .remote_shares_dto()
        .0
        .iter()
        .map(|(addr, r)| format!("{}/{}", addr.to_string(), r.name.to_string()))
        .collect();
    assert_eq!(rows, vec!["9.0.0.1/a", "10.0.0.2/b", "10.0.0.2/z", "10.0.0.2:80/a"]);
}

#[test]
fn removing_a_peer_unbinds_every_edge() {
    let mut state = State::new();
    let (tx, mut rx) = async_broadcast::broadcast(1);
    state.add_share(Share::new(name("A"), "/a".to_string())).unwrap();
    state.add_share(Share::new(name("B"), "/b".to_string())).unwrap();
    let (peer, shutdown_rx, notification_rx) = new_peer(6);
    let id = state.new_peer_connected_to_share(peer, name("A")).unwrap();
    state.peer_connected_to_share(id, name("B")).unwrap();
    state
        .join_remote_share(id, FullShareName::from_str("6.6.6.6/c").unwrap(), "/mnt/c".to_string())
        .unwrap();
    let (other, _s, _n) = new_peer(7);
    let keep = state.new_peer_connected_to_share(other, name("A")).unwrap();

    state.remove_peer(id, &tx).unwrap();
    assert!(!state.has_peer(id));
    assert!(state.has_peer(keep));
    assert!(shutdown_rx.try_recv().is_ok());
    assert!(notification_rx.try_recv().is_err());
    assert!(state.remote_shares_dto().0.is_empty());
    let shares = state.shares_dto();
    assert_eq!(shares.0.len(), 2);
    assert_eq!(shares.0[0].participants, vec![keep]);
    assert!(shares.0[1].participants.is_empty());
    assert!(rx.try_recv().is_err());
    assert!(state.remove_peer(id, &tx).is_err());
}

/// Checks the mirrored edges and peer liveness through the snapshots.
fn assert_consistent(state: &State) {
    let peers = state.peers_dto();
    let shares = state.shares_dto();
    for (id, _) in &peers.0 {
        let (local, remote) = state.peer_memberships(*id).unwrap();
        assert!(local + remote > 0, "idle peer {id:?} is still live");
        let listed = shares.0.iter().filter(|s| s.participants.contains(id)).count();
        assert_eq!(listed, local);
    }
    for share in &shares.0 {
        for id in &share.participants {
            assert!(state.has_peer(*id));
        }
    }
    let mut addrs: Vec<_> = peers.0.iter().map(|(_, a)| *a).collect();
    addrs.sort();
    addrs.dedup();
    assert_eq!(addrs.len(), peers.0.len());
}

#[test]
fn random_operation_sequences_keep_the_state_consistent() {
    let names = ["a", "b", "c"];
    let remotes = ["1.1.1.1/x", "1.1.1.1/y", "2.2.2.2:5/x"];
    let mut seed: u64 = 0x2545F4914F6CDD1D;
    let mut next = |n: u64| {
        seed ^= seed << 13;
        seed ^= seed >> 7;
        seed ^= seed << 17;
        seed % n
    };
    for _round in 0..20 {
        let mut state = State::new();
        let (tx, _rx) = async_broadcast::broadcast(64);
        let mut ids: Vec<PeerId> = Vec::new();
        let mut keep = Vec::new();
        for _step in 0..200 {
            let n = name(names[next(3) as usize]);
            let live: Vec<PeerId> = ids.iter().copied().filter(|id| state.has_peer(*id)).collect();
            match next(9) {
                0 => {
                    let _ = state.add_share(Share::new(n, "/d".to_string()));
                }
                1 => {
                    let _ = state.remove_share(&n, &tx);
                }
                2 => {
                    let (peer, s, m) = new_peer(next(5) as u8);
                    keep.push((s, m));
                    if let Ok(id) = state.new_peer_connected_to_share(peer, n) {
                        ids.push(id);
                    }
                }
                3 if !live.is_empty() => {
                    let _ = state.peer_connected_to_share(live[next(live.len() as u64) as usize], n);
                }
                4 if !live.is_empty() => {
                    let _ = state.peer_disconnected_from_share(live[next(live.len() as u64) as usize], n);
                }
                5 if !live.is_empty() => {
                    let _ = state.kick_peer_from_share(live[next(live.len() as u64) as usize], n);
                }
                6 => {
                    let (peer, s, m) = new_peer(100 + next(5) as u8);
                    keep.push((s, m));
                    let f = FullShareName::from_str(remotes[next(3) as usize]).unwrap();
                    if state.peer_id_by_socket(peer.socket()).is_none() {
                        if let Ok(id) = state.join_remote_share_new(peer, f, "/m".to_string()) {
                            ids.push(id);
                        }
                    }
                }
                7 if !live.is_empty() => {
                    let f = FullShareName::from_str(remotes[next(3) as usize]).unwrap();
                    let id = live[next(live.len() as u64) as usize];
                    if next(2) == 0 {
                        let _ = state.join_remote_share(id, f, "/m".to_string());
                    } else {
                        let _ = state.exit_remote_share(id, f, &tx);
                    }
                }
                8 if !live.is_empty() => {
                    let _ = state.remove_peer(live[next(live.len() as u64) as usize], &tx);
                }
                _ => {}
            }
            assert_consistent(&state);
        }
    }
}

#[test]
fn participants_and_names_come_in_order() {
    let mut state = State::new();
    for n in ["z", "m", "a"] {
        state.add_share(Share::new(name(n), "/".to_string())).unwrap();
    }
    let mut keep = Vec::new();
    let mut ids = Vec::new();
    for k in [4u8, 2, 9, 1] {
        let (peer, s, m) = new_peer(k);
        keep.push((s, m));
        ids.push(state.new_peer_connected_to_share(peer, name("a")).unwrap());
    }
    // join share m in the reverse order of the ids
    for id in ids.iter().rev() {
        state.peer_connected_to_share(*id, name("m")).unwrap();
    }
    let dto = state.shares_dto();
    let m = dto.0.iter().find(|d| d.name.as_str() == "m").unwrap();
    let mut sorted = ids.clone();
    sorted.sort();
    assert_eq!(m.participants, sorted);
    let names: Vec<String> = state.share_names().iter().map(|n| n.to_string()).collect();
    assert_eq!(names, vec!["a", "m", "z"]);
}
