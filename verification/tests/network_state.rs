//! Sockets, leases, timers and the settings of the network.
use vanta::dhcp::{
    acquire_lease, build_discover, build_nak, build_request, get_dhcp_lease, get_nak_retry_count,
    parse_dhcp_packet, Dhcp, DhcpError, DhcpMsgType, Progress,
};
use vanta::network::{
    default_configuration, load_configuration, parse_configuration, poll_network, socket_accept,
    socket_bind, socket_close, socket_connect, socket_create, socket_getsockname, socket_listen,
    socket_recvfrom, socket_sendto, ArpTable, Counters, Network, NetworkConfig, NetworkError,
    NetworkState,
};
use vanta::network::stream::{ConnectProgress, SendProgress};
use vanta::net;
use vanta::ordmap::OrdMap;
use vanta::socket::{generate_syn_cookie, validate_syn_cookie};
use vanta::timer::{
    add_sleep_timer, cancel_sleep_timer, current_tick, get_clock_time, get_itimer, set_clock_time,
    set_itimer, tick, TimerKind, TimerWheel, Timers,
};
use vanta::virtio_net::{VirtioNet, VirtioNetError};

const MAC: [u8; 6] = [0x52, 0x54, 0x00, 0x12, 0x34, 0x56];
const PEER_MAC: [u8; 6] = [0x52, 0x55, 0x0a, 0x00, 0x02, 0x02];
const LOCAL: [u8; 4] = [10, 0, 2, 15];
const PEER: [u8; 4] = [10, 0, 2, 2];

fn device() -> VirtioNet {
    VirtioNet {
        mac: MAC,
        rx: Vec::new(),
        tx: Vec::new(),
        fault: None,
    }
}

fn up() -> Network {
    let mut network = Network::new();
    let mut arp_table = ArpTable::new();
    arp_table.insert(PEER, PEER_MAC);
    network.state = Some(NetworkState {
        device: device(),
        configuration: NetworkConfig {
            address: LOCAL,
            gateway: PEER,
            dns: [10, 0, 2, 3],
            tcp_host: PEER,
            tcp_port: 18_080,
        },
        arp_table,
        gateway_mac: Some(PEER_MAC),
        gateway_echoed: false,
        dns_replied: false,
        tcp_connected: false,
        sockets: OrdMap::new(),
    });
    network
}

fn sent(network: &Network) -> &Vec<Vec<u8>> {
    &network.state.as_ref().unwrap().device.tx
}

fn arrives(network: &mut Network, frame: Vec<u8>) {
    network.state.as_mut().unwrap().device.rx.push(frame);
}

#[test]
fn without_a_device_there_are_no_sockets() {
    let mut network = Network::new();
    assert_eq!(socket_create(&mut network, 2, 1, 0), Err(NetworkError::Unavailable));
    assert_eq!(poll_network(&mut network), Err(NetworkError::Unavailable));
}

#[test]
fn sockets_are_made_by_domain_and_kind() {
    let mut network = up();
    assert_eq!(socket_create(&mut network, 1, 1, 0), Err(NetworkError::InvalidArgument));
    assert_eq!(socket_create(&mut network, 2, 99, 0), Err(NetworkError::InvalidSocketType));
    let first = socket_create(&mut network, 2, 1, 0).unwrap();
    let second = socket_create(&mut network, 2, 2, 0).unwrap();
    assert_ne!(first, second);
    assert_eq!(socket_close(&mut network, 999), Ok(()));
    assert_eq!(socket_close(&mut network, second), Ok(()));
    assert_eq!(
        socket_bind(&mut network, second, [0; 4], 53),
        Err(NetworkError::SocketNotFound)
    );
}

#[test]
fn a_socket_is_bound_once() {
    let mut network = up();
    let first = socket_create(&mut network, 2, 2, 0).unwrap();
    assert_eq!(socket_bind(&mut network, first, [0; 4], 5353), Ok(()));
    assert_eq!(socket_bind(&mut network, first, [0; 4], 5354), Err(NetworkError::AlreadyBound));
    assert_eq!(socket_getsockname(&network, first), Ok((LOCAL, 5353)));
}

#[test]
fn datagrams_go_out_and_come_in() {
    let mut network = up();
    let handle = socket_create(&mut network, 2, 2, 0).unwrap();
    socket_bind(&mut network, handle, [0; 4], 7000).unwrap();
    let mut progress = SendProgress::Start;
    assert_eq!(
        socket_sendto(&mut network, handle, b"ping", PEER, 9000, &mut progress),
        Ok(Some(4))
    );
    let frame = sent(&network).last().unwrap().clone();
    let (_, packet) = net::parse_ethernet(&frame).unwrap();
    let (ip, datagram) = net::parse_ipv4(packet).unwrap();
    let (udp, data) = net::parse_udp(datagram, ip.src_ip, ip.dest_ip).unwrap();
    assert_eq!((udp.src_port, udp.dest_port, data), (7000, 9000, &b"ping"[..]));

    arrives(&mut network, net::build_udp_frame(PEER_MAC, MAC, PEER, LOCAL, 9000, 7000, b"pong"));
    let mut attempts = 10;
    let (data, from, port) =
        socket_recvfrom(&mut network, handle, 64, true, &mut attempts).unwrap().unwrap();
    assert_eq!((data.as_slice(), from, port), (&b"pong"[..], PEER, 9000));
    assert_eq!(
        socket_recvfrom(&mut network, handle, 64, true, &mut attempts),
        Err(NetworkError::WouldBlock)
    );
}

#[test]
fn a_listener_answers_a_handshake() {
    let mut network = up();
    let listener = socket_create(&mut network, 2, 1, 0).unwrap();
    socket_bind(&mut network, listener, [0; 4], 80).unwrap();
    socket_listen(&mut network, listener, 4).unwrap();
    let syn = net::build_tcp_frame(
        PEER_MAC, MAC, PEER, LOCAL, 40_000, 80, 1_000, 0, net::TCP_SYN, 4_096, b"",
    );
    arrives(&mut network, syn);
    poll_network(&mut network).unwrap();
    let answer = sent(&network).last().unwrap().clone();
    let (_, packet) = net::parse_ethernet(&answer).unwrap();
    let (ip, segment) = net::parse_ipv4(packet).unwrap();
    let (tcp, _) = net::parse_tcp(segment, ip.src_ip, ip.dest_ip).unwrap();
    assert_eq!(tcp.flags, net::TCP_SYN | net::TCP_ACK);
    assert_eq!(tcp.acknowledgement, 1_001);
    let ack = net::build_tcp_frame(
        PEER_MAC,
        MAC,
        PEER,
        LOCAL,
        40_000,
        80,
        1_001,
        tcp.sequence.wrapping_add(1),
        net::TCP_ACK,
        4_096,
        b"",
    );
    arrives(&mut network, ack);
    let mut attempts = 10;
    let accepted = socket_accept(&mut network, listener, true, &mut attempts).unwrap();
    let (_, from, port) = accepted.expect("a finished handshake");
    assert_eq!((from, port), (PEER, 40_000));
}

fn from_peer(network: &mut Network, sequence: u32, ack: u32, flags: u8, data: &[u8]) {
    let frame = net::build_tcp_frame(
        PEER_MAC, MAC, PEER, LOCAL, 80, 49_152, sequence, ack, flags, 4_096, data,
    );
    arrives(network, frame);
}

#[test]
fn a_stream_keeps_its_order_until_it_is_reset() {
    let mut network = up();
    let handle = socket_create(&mut network, 2, 1, 0).unwrap();
    let mut progress = ConnectProgress::Start;
    assert_eq!(
        socket_connect(&mut network, handle, PEER, 80, false, &mut progress),
        Ok(false)
    );
    let frame = sent(&network).last().unwrap().clone();
    let (_, packet) = net::parse_ethernet(&frame).unwrap();
    let (ip, segment) = net::parse_ipv4(packet).unwrap();
    let (tcp, _) = net::parse_tcp(segment, ip.src_ip, ip.dest_ip).unwrap();
    assert_eq!(tcp.src_port, 49_152);
    let next = tcp.sequence.wrapping_add(1);
    let both = net::TCP_SYN | net::TCP_ACK;
    from_peer(&mut network, 500, next, both, b"");
    poll_network(&mut network).unwrap();

    from_peer(&mut network, 501, next, net::TCP_ACK, b"abc");
    poll_network(&mut network).unwrap();
    from_peer(&mut network, 501, next, net::TCP_ACK, b"abc");
    poll_network(&mut network).unwrap();
    from_peer(&mut network, 504, next, net::TCP_ACK, b"de");
    poll_network(&mut network).unwrap();
    let mut attempts = 10;
    let (data, _, _) =
        socket_recvfrom(&mut network, handle, 64, true, &mut attempts).unwrap().unwrap();
    assert_eq!(data, b"abcde");

    from_peer(&mut network, 506, next, net::TCP_RST, b"");
    poll_network(&mut network).unwrap();
    assert_eq!(
        socket_recvfrom(&mut network, handle, 64, true, &mut attempts),
        Err(NetworkError::ConnectionReset)
    );
}

#[test]
fn a_connection_starts_with_a_question() {
    let mut network = up();
    let handle = socket_create(&mut network, 2, 1, 0).unwrap();
    let mut progress = ConnectProgress::Start;
    assert_eq!(
        socket_connect(&mut network, handle, PEER, 80, false, &mut progress),
        Ok(false)
    );
    let frame = sent(&network).last().unwrap().clone();
    let (_, packet) = net::parse_ethernet(&frame).unwrap();
    let (ip, segment) = net::parse_ipv4(packet).unwrap();
    let (tcp, _) = net::parse_tcp(segment, ip.src_ip, ip.dest_ip).unwrap();
    assert_eq!(tcp.flags, net::TCP_SYN);
}

#[test]
fn a_faulty_device_is_reported() {
    let mut network = up();
    network.state.as_mut().unwrap().device.fault = Some(VirtioNetError::DeviceUnavailable);
    assert_eq!(
        poll_network(&mut network),
        Err(NetworkError::Device(VirtioNetError::DeviceUnavailable))
    );
}

#[test]
fn settings_are_read() {
    let text = default_configuration();
    let settings = parse_configuration(&text).unwrap();
    assert_eq!(settings.address, LOCAL);
    assert_eq!(load_configuration(None, true).unwrap().address, LOCAL);
    assert!(parse_configuration(b"address=300.1.1.1\n").is_none());
    assert_eq!(
        load_configuration(Some(b"nonsense".to_vec()), true).err(),
        Some(NetworkError::Configuration)
    );
}

#[test]
fn counters_start_where_ports_are_free() {
    assert_eq!(
        Network::new().counters,
        Counters {
            next_port: 49_152,
            next_handle: 1,
            isn_counter: 0x1000_0000,
        }
    );
}

#[test]
fn a_cookie_is_known_again_for_a_while() {
    let cookie = generate_syn_cookie(LOCAL, PEER, 80, 40_000, 77, 100);
    assert!(validate_syn_cookie(cookie, LOCAL, PEER, 80, 40_000, 77, 100));
    assert!(!validate_syn_cookie(cookie ^ 1, LOCAL, PEER, 80, 40_000, 77, 100));
    assert!(!validate_syn_cookie(cookie, LOCAL, PEER, 80, 40_000, 77, 110));
}

/// What a server sends: a message to a client, in a frame.
fn server_frame(kind: u8, xid: u32, offered: [u8; 4]) -> Vec<u8> {
    let mut message = vec![0_u8; 240];
    message[0] = 2;
    message[1] = 1;
    message[2] = 6;
    message[4..8].copy_from_slice(&xid.to_be_bytes());
    message[16..20].copy_from_slice(&offered);
    message[28..34].copy_from_slice(&MAC);
    message[236..240].copy_from_slice(&[0x63, 0x82, 0x53, 0x63]);
    message.extend_from_slice(&[53, 1, kind]);
    message.extend_from_slice(&[54, 4, 10, 0, 2, 2]);
    message.extend_from_slice(&[1, 4, 255, 255, 255, 0]);
    message.extend_from_slice(&[3, 4, 10, 0, 2, 2]);
    message.extend_from_slice(&[6, 4, 10, 0, 2, 3]);
    message.extend_from_slice(&[51, 4, 0, 0, 14, 16]);
    message.push(255);
    net::build_udp_frame(PEER_MAC, MAC, PEER, [255; 4], 67, 68, &message)
}

#[test]
fn a_lease_is_offered_asked_for_and_granted() {
    let mut dhcp = Dhcp::new();
    let mut progress = Progress::Init { attempt: 0 };
    let mut device = device();
    let mut lease = None;
    for _ in 0..20 {
        match acquire_lease(&mut dhcp, &mut progress, &mut device, 5).unwrap() {
            Some(granted) => {
                lease = Some(granted);
                break;
            }
            None => match progress {
                Progress::Init { .. } => {}
                Progress::Selecting { xid, .. } => {
                    device.rx.push(server_frame(2, xid, [10, 0, 2, 20]));
                }
                Progress::Requesting { xid, .. } => {
                    device.rx.push(server_frame(5, xid, [10, 0, 2, 20]));
                }
            },
        }
    }
    let lease = lease.expect("a lease");
    assert_eq!((lease.ip, lease.gateway, lease.lease_time), ([10, 0, 2, 20], PEER, 3_600));
    assert_eq!(get_dhcp_lease(&dhcp).unwrap().ip, [10, 0, 2, 20]);
    // The first request is always refused once, to try that path.
    assert_eq!(get_nak_retry_count(&dhcp), 1);
    assert_eq!(device.tx.len(), 4);
}

#[test]
fn a_refused_lease_is_counted() {
    let mut dhcp = Dhcp::new();
    let mut progress = Progress::Init { attempt: 1 };
    let mut device = device();
    acquire_lease(&mut dhcp, &mut progress, &mut device, 5).unwrap();
    let xid = match progress {
        Progress::Selecting { xid, .. } => xid,
        _ => panic!("a question was sent"),
    };
    device.rx.push(server_frame(2, xid, [10, 0, 2, 20]));
    acquire_lease(&mut dhcp, &mut progress, &mut device, 6).unwrap();
    device.rx.push(server_frame(6, xid, [0; 4]));
    assert_eq!(acquire_lease(&mut dhcp, &mut progress, &mut device, 7), Ok(None));
    assert_eq!(get_nak_retry_count(&dhcp), 1);
    let mut spent = Progress::Init { attempt: 3 };
    assert_eq!(
        acquire_lease(&mut dhcp, &mut spent, &mut device, 8),
        Err(DhcpError::NakReceived)
    );
    let mut broken = Progress::Init { attempt: 0 };
    device.fault = Some(VirtioNetError::TransmitFailed);
    assert_eq!(
        acquire_lease(&mut dhcp, &mut broken, &mut device, 8),
        Err(DhcpError::TransmitFailed)
    );
}

#[test]
fn messages_of_a_client_are_framed() {
    let discover = build_discover(MAC, 0xabcd);
    assert_eq!(&discover[42 + 4..42 + 8], &[0, 0, 0xab, 0xcd]);
    assert!(build_request(MAC, 0xabcd, LOCAL, PEER).len() >= discover.len());
    let nak = build_nak(MAC, 0xabcd, PEER);
    assert_eq!(parse_dhcp_packet(&nak, 0xabcd).unwrap().msg_type, DhcpMsgType::Nak);
    assert!(parse_dhcp_packet(&nak, 0xabce).is_none());
}

#[test]
fn a_sleeper_wakes_on_its_tick() {
    let mut timers = Timers::new();
    let start = current_tick(&timers);
    assert_eq!(add_sleep_timer(&mut timers, 7, 3), start + 3);
    assert!(tick(&mut timers).is_empty());
    assert!(tick(&mut timers).is_empty());
    let due = tick(&mut timers);
    assert_eq!(due.len(), 1);
    assert!(matches!(due[0].kind, TimerKind::Sleep { tid: 7 }));
    add_sleep_timer(&mut timers, 8, 300);
    assert!(cancel_sleep_timer(&mut timers, 8).is_some());
    assert!(cancel_sleep_timer(&mut timers, 8).is_none());
    for _ in 0..400 {
        assert!(tick(&mut timers).is_empty());
    }
}

#[test]
fn far_timers_come_down_in_time() {
    let mut timers = Timers::new();
    let due = add_sleep_timer(&mut timers, 9, 20_000);
    let mut woken = 0;
    while current_tick(&timers) < due + 5 {
        let entries = tick(&mut timers);
        if !entries.is_empty() {
            woken = current_tick(&timers);
        }
    }
    assert_eq!(woken, due);
}

#[test]
fn intervals_are_replaced() {
    let mut timers = Timers::new();
    assert_eq!(set_itimer(&mut timers, 1, 0, 10, 50), (0, 0));
    assert_eq!(get_itimer(&timers, 1, 0), (10, 50));
    assert_eq!(set_itimer(&mut timers, 1, 0, 0, 0), (10, 50));
    assert_eq!(get_itimer(&timers, 1, 0), (0, 0));
}

#[test]
fn the_clock_gives_back_what_it_was_set_to() {
    let mut timers = Timers::new();
    assert!(set_clock_time(&mut timers, 0, 1_700_000_000, 0).is_ok());
    assert_eq!(get_clock_time(&timers, 0).0, 1_700_000_000);
    assert!(set_clock_time(&mut timers, 1, 5, 0).is_err());
    assert_eq!(get_clock_time(&timers, 1), (0, 0));
}

#[test]
fn a_far_interval_timer_is_set_anew() {
    let mut wheel = TimerWheel::new();
    let kind = TimerKind::ITimerReal { pid: 1, interval_ticks: 5 };
    for far in [100, 20_000, 2_000_000, 100_000_000] {
        let id = wheel.add_timer(far, kind);
        wheel.rearm_itimer_entry(id, 10);
        assert_eq!(wheel.get_itimer(1), Some((5, 10)));
        assert_eq!(wheel.cancel_itimer(1), Some((5, 10)));
        assert_eq!(wheel.get_itimer(1), None);
    }
}

#[test]
fn a_timer_fires_once_and_a_cancelled_one_never() {
    let mut wheel = TimerWheel::new();
    wheel.add_timer(300, TimerKind::Sleep { tid: 1 });
    wheel.add_timer(300, TimerKind::Sleep { tid: 2 });
    wheel.add_timer(17_000, TimerKind::Sleep { tid: 3 });
    assert_eq!(wheel.cancel_sleep_timer(2), Some(300));
    assert_eq!(wheel.cancel_sleep_timer(2), None);
    let mut fired = Vec::new();
    for now in 1..=20_000_u64 {
        for entry in wheel.advance_tick() {
            fired.push((now, entry.target_tick));
        }
    }
    assert_eq!(fired, [(300, 300), (17_000, 17_000)]);
}

#[test]
fn a_wrong_acknowledgement_opens_nothing() {
    let mut network = up();
    let listener = socket_create(&mut network, 2, 1, 0).unwrap();
    socket_bind(&mut network, listener, [0; 4], 80).unwrap();
    socket_listen(&mut network, listener, 4).unwrap();
    let syn = net::build_tcp_frame(
        PEER_MAC, MAC, PEER, LOCAL, 40_000, 80, 1_000, 0, net::TCP_SYN, 4_096, b"",
    );
    arrives(&mut network, syn);
    poll_network(&mut network).unwrap();
    let answer = sent(&network).last().unwrap().clone();
    let (_, packet) = net::parse_ethernet(&answer).unwrap();
    let (ip, segment) = net::parse_ipv4(packet).unwrap();
    let (tcp, _) = net::parse_tcp(segment, ip.src_ip, ip.dest_ip).unwrap();
    let wrong = tcp.sequence.wrapping_add(2);
    let ack = net::build_tcp_frame(
        PEER_MAC, MAC, PEER, LOCAL, 40_000, 80, 1_001, wrong, net::TCP_ACK, 4_096, b"",
    );
    arrives(&mut network, ack);
    let mut attempts = 10;
    assert_eq!(
        socket_accept(&mut network, listener, true, &mut attempts),
        Err(NetworkError::WouldBlock)
    );
}
