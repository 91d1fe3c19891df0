use catten_services::tcpip::{
    address_number, apply_dhcp, clock_step, configured_address, local_address, ConnectPlan,
    DhcpUpdate, Endpoint, InterfaceChange, SendPlan, SocketError, SocketKind, TcpipState,
};

const TARGET: [u8; 6] = [10, 0, 0, 9, 0x90, 0x1f];
const PEER: Endpoint = Endpoint { address: 0x0a00_0009, port: 8080 };

fn with_sockets() -> (TcpipState, u64, u64) {
    let mut state = TcpipState::new();
    let tcp = state.open(Some(SocketKind::Tcp), 8).unwrap();
    let udp = state.open(Some(SocketKind::Udp), 8).unwrap();
    (state, tcp, udp)
}

#[test]
fn addresses_come_from_the_manifest_or_the_hardware() {
    let mac = [2, 0, 0, 0, 0, 207];
    assert_eq!(local_address(false, None, mac), [10, 0, 0, 107]);
    assert_eq!(local_address(false, Some(&[10, 0, 2, 15]), mac), [10, 0, 2, 15]);
    assert_eq!(local_address(false, Some(&[10, 0, 2]), mac), [10, 0, 0, 107]);
    assert_eq!(local_address(true, Some(&[10, 0, 2, 15]), mac), [0, 0, 0, 0]);
    assert_eq!(configured_address(Some(&[1, 2, 3, 4])), Some([1, 2, 3, 4]));
    assert_eq!(configured_address(Some(&[1, 2, 3, 4, 5])), None);
    assert_eq!(configured_address(None), None);
    assert_eq!(address_number([10, 0, 0, 107]), 0x0a00_006b);
}

#[test]
fn sockets_are_numbered_and_limited() {
    let mut state = TcpipState::new();
    assert_eq!(state.open(None, 2), Err(SocketError::BadDomain));
    assert_eq!(state.open(Some(SocketKind::Tcp), 2), Ok(1));
    assert_eq!(state.open(Some(SocketKind::Udp), 2), Ok(2));
    assert_eq!(state.open(Some(SocketKind::Udp), 2), Err(SocketError::TooManySockets));
    let mut last = TcpipState::new();
    last.next_sock_id = u64::MAX;
    assert_eq!(last.alloc_sock_id(), u64::MAX);
    assert_eq!(last.alloc_sock_id(), 1);
}

#[test]
fn ports_come_in_turn() {
    let mut state = TcpipState::new();
    assert_eq!(state.alloc_ephemeral_port(), 49_152);
    assert_eq!(state.alloc_ephemeral_port(), 49_153);
    for _ in 0..16_382 {
        assert!(state.alloc_ephemeral_port() >= 49_154);
    }
    assert_eq!(state.alloc_ephemeral_port(), 49_152);
}

#[test]
fn a_connection_takes_a_port_even_if_it_is_refused() {
    let (mut state, tcp, udp) = with_sockets();
    assert_eq!(state.connect(tcp, None), Err(SocketError::BadOpcode));
    assert_eq!(
        state.connect(tcp, Some(&TARGET)),
        Ok(ConnectPlan { kind: SocketKind::Tcp, remote: PEER, local_port: 49_152 })
    );
    assert_eq!(state.connect(99, Some(&TARGET)), Err(SocketError::BadSocket));
    assert_eq!(
        state.connect(udp, Some(&TARGET)),
        Ok(ConnectPlan { kind: SocketKind::Udp, remote: PEER, local_port: 49_154 })
    );
    assert_eq!(state.connected(tcp, PEER, false), Err(SocketError::ConnectionRefused));
    assert_eq!(state.connected(tcp, PEER, true), Ok(()));
    assert_eq!(state.sockets.get(&tcp).unwrap().udp_remote, None);
    assert_eq!(state.connected(udp, PEER, true), Ok(()));
    assert_eq!(state.sockets.get(&udp).unwrap().udp_remote, Some(PEER));
}

#[test]
fn only_streams_listen() {
    let (state, tcp, udp) = with_sockets();
    assert_eq!(state.listen_port(tcp, true, true, 80), Ok((SocketKind::Tcp, 80)));
    assert_eq!(state.listen_port(udp, true, true, 80), Err(SocketError::BadSocket));
    assert_eq!(state.listen_port(udp, false, true, 80), Ok((SocketKind::Udp, 80)));
    assert_eq!(state.listen_port(udp, false, false, 80), Err(SocketError::BadOpcode));
    assert_eq!(state.listen_port(99, false, true, 80), Err(SocketError::BadSocket));
}

#[test]
fn a_listener_becomes_the_connection() {
    let (state, tcp, udp) = with_sockets();
    assert_eq!(state.accept(tcp, true, true), Err(SocketError::WouldBlock));
    assert_eq!(state.accept(tcp, false, true), Ok(()));
    assert_eq!(state.accept(tcp, false, false), Err(SocketError::ConnectionRefused));
    assert_eq!(state.accept(udp, false, true), Err(SocketError::BadSocket));
    assert_eq!(state.accept(99, false, true), Err(SocketError::BadSocket));
}

#[test]
fn sends_are_checked_and_counted() {
    let (mut state, tcp, udp) = with_sockets();
    let arg = |id: u64, len: u64| (len << 32) | id;
    assert_eq!(state.send(arg(99, 5), true), SendPlan::Refuse { error: SocketError::BadSocket });
    assert_eq!(state.send(arg(tcp, 5), false), SendPlan::Nothing);
    assert_eq!(state.send(arg(tcp, 0), true), SendPlan::Refuse { error: SocketError::BadOpcode });
    assert_eq!(
        state.send(arg(tcp, 4097), true),
        SendPlan::Refuse { error: SocketError::BadOpcode }
    );
    assert_eq!(
        state.send(arg(udp, 4096), true),
        SendPlan::Send { id: udp, kind: SocketKind::Udp, remote: None, len: 4096 }
    );
    assert_eq!(state.sent(SocketKind::Tcp, Some(5)), Ok(5));
    assert_eq!(state.sent(SocketKind::Tcp, None), Err(SocketError::WouldBlock));
    assert_eq!(state.sent(SocketKind::Udp, None), Err(SocketError::NotConnected));
    assert_eq!(state.sent(SocketKind::Tcp, Some(0)), Ok(0));
    assert_eq!((state.tx_ok, state.tx_err), (1, 3));
}

#[test]
fn one_receive_waits_at_each_socket() {
    let (mut state, tcp, udp) = with_sockets();
    assert_eq!(state.recv(tcp, 70), Ok(()));
    assert_eq!(state.recv(tcp, 71), Err(SocketError::WouldBlock));
    assert_eq!(state.recv(udp, 72), Ok(()));
    assert_eq!(state.recv(99, 73), Err(SocketError::BadSocket));
    state.complete(&[tcp, 99]);
    assert_eq!(state.recv(tcp, 74), Ok(()));
    assert_eq!(state.close(udp), Some((SocketKind::Udp, Some(72))));
    assert_eq!(state.close(udp), Some((SocketKind::Udp, None)));
    assert_eq!(state.close(99), None);
}

#[test]
fn datagrams_come_from_the_peer_only() {
    let (mut state, tcp, udp) = with_sockets();
    assert!(state.deliverable(tcp, 1, None));
    assert!(!state.deliverable(tcp, 0, None));
    assert!(!state.deliverable(udp, 1, Some(PEER)));
    assert_eq!(state.connected(udp, PEER, true), Ok(()));
    assert!(state.deliverable(udp, 1, Some(PEER)));
    assert!(!state.deliverable(udp, 1, Some(Endpoint { port: 1, ..PEER })));
    assert!(!state.deliverable(udp, 1, None));
}

#[test]
fn only_closed_sockets_are_swept() {
    let mut state = TcpipState::new();
    let ids: Vec<u64> = (0..12).map(|_| state.open(Some(SocketKind::Tcp), 16).unwrap()).collect();
    for id in &ids[1..] {
        state.close(*id);
    }
    assert_eq!(state.sweep(&ids), ids[1..9].to_vec());
    assert_eq!(state.sockets.len(), 4);
    assert_eq!(state.sweep(&ids), ids[9..].to_vec());
    assert_eq!(state.sockets.len(), 1);
    assert_eq!(state.sweep(&ids), Vec::<u64>::new());
}

#[test]
fn frames_are_counted() {
    let mut state = TcpipState::new();
    assert!(state.frame(true, 14));
    assert!(state.frame(true, 4096));
    assert!(!state.frame(true, 13));
    assert!(!state.frame(true, 4097));
    assert!(!state.frame(false, 60));
    assert_eq!(state.rx_total, 2);
}

#[test]
fn the_status_is_nine_words() {
    let (mut state, _, _) = with_sockets();
    state.frame(true, 60);
    let _ = state.sent(SocketKind::Tcp, Some(3));
    let image = state.status_image(0x0a00_006b, 0x5443_5049, true, 0x0a00_0001);
    let words: Vec<u32> =
        image.chunks(4).map(|w| u32::from_le_bytes([w[0], w[1], w[2], w[3]])).collect();
    assert_eq!(words, vec![0x0a00_006b, 1, 1, 2, 0x5443_5049, 0, 1, 0x0a00_0001, 1500]);
}

#[test]
fn dhcp_and_the_clock_are_followed() {
    assert_eq!(apply_dhcp(5, DhcpUpdate::Unchanged), (5, InterfaceChange::Keep));
    assert_eq!(
        apply_dhcp(5, DhcpUpdate::Configured { address: 9, router: Some(1) }),
        (9, InterfaceChange::Replace { address: 9, router: Some(1) })
    );
    assert_eq!(apply_dhcp(5, DhcpUpdate::Deconfigured), (0, InterfaceChange::Clear));
    assert_eq!(clock_step(true, false, false), (100, true));
    assert_eq!(clock_step(false, true, true), (100, false));
    assert_eq!(clock_step(false, false, false), (0, false));
}
