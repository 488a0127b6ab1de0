//! Frames are read back as they were written.
use vanta::net::{
    ARP_REPLY, ARP_REQUEST, ETHERNET_HEADER_SIZE, ETHERTYPE_ARP, ETHERTYPE_IPV4, ICMP_ECHO_REPLY, ICMP_ECHO_REQUEST, IP_PROTOCOL_ICMP, IP_PROTOCOL_UDP, TCP_ACK, TCP_PSH, TCP_SYN, arp_reply, arp_request, build_ethernet, build_icmp_echo_reply, build_tcp_frame, build_udp_frame, icmp_echo_request, parse_arp, parse_ethernet, parse_icmp, parse_ipv4, parse_tcp, parse_udp, read_u16, tcp_reply, tcp_segment, valid_checksum, valid_tcp_checksum, Ipv4Address, MacAddress,
};

const LOCAL_MAC: MacAddress = [0x52, 0x54, 0x00, 0x12, 0x34, 0x56];
const GATEWAY_MAC: MacAddress = [0x52, 0x55, 0x0a, 0x00, 0x02, 0x02];
const LOCAL_IP: Ipv4Address = [10, 0, 2, 15];
const HOST_IP: Ipv4Address = [10, 0, 2, 2];

#[test]
fn ethernet_round_trip() {
    let payload = b"hello ethernet";
    let frame = build_ethernet(GATEWAY_MAC, LOCAL_MAC, ETHERTYPE_IPV4, payload);
    let (hdr, data) = parse_ethernet(&frame).expect("valid ethernet frame");
    assert_eq!(hdr.dest_mac, GATEWAY_MAC);
    assert_eq!(hdr.src_mac, LOCAL_MAC);
    assert_eq!(hdr.ethertype, ETHERTYPE_IPV4);
    assert_eq!(data, payload);
}

#[test]
fn arp_request_and_reply() {
    let req = arp_request(LOCAL_MAC, LOCAL_IP, HOST_IP);
    let (eth, arp_data) = parse_ethernet(&req).expect("ethernet");
    assert_eq!(eth.ethertype, ETHERTYPE_ARP);
    let arp = parse_arp(arp_data).expect("arp");
    assert_eq!(arp.opcode, ARP_REQUEST);
    assert_eq!(arp.sender_mac, LOCAL_MAC);
    assert_eq!(arp.sender_ip, LOCAL_IP);
    assert_eq!(arp.target_ip, HOST_IP);

    let rep = arp_reply(LOCAL_MAC, LOCAL_IP, GATEWAY_MAC, HOST_IP);
    let (eth, arp_data) = parse_ethernet(&rep).expect("ethernet");
    assert_eq!(eth.dest_mac, GATEWAY_MAC);
    let arp = parse_arp(arp_data).expect("arp");
    assert_eq!(arp.opcode, ARP_REPLY);
    assert_eq!(arp.sender_mac, LOCAL_MAC);
    assert_eq!(arp.target_mac, GATEWAY_MAC);
}

#[test]
fn ipv4_and_udp_round_trip() {
    let payload = b"hello udp world";
    let frame = build_udp_frame(LOCAL_MAC, GATEWAY_MAC, LOCAL_IP, HOST_IP, 12345, 8080, payload);
    let (eth, ip_data) = parse_ethernet(&frame).expect("ethernet");
    assert_eq!(eth.ethertype, ETHERTYPE_IPV4);
    let (ip, udp_data) = parse_ipv4(ip_data).expect("ipv4");
    assert_eq!(ip.protocol, IP_PROTOCOL_UDP);
    assert_eq!(ip.src_ip, LOCAL_IP);
    assert_eq!(ip.dest_ip, HOST_IP);
    let (udp, data) = parse_udp(udp_data, ip.src_ip, ip.dest_ip).expect("udp");
    assert_eq!(udp.src_port, 12345);
    assert_eq!(udp.dest_port, 8080);
    assert_eq!(data, payload);
}

#[test]
fn icmp_echo_request_and_reply() {
    let req = icmp_echo_request(LOCAL_MAC, GATEWAY_MAC, LOCAL_IP, HOST_IP, 0x1234);
    let (eth, ip_data) = parse_ethernet(&req).expect("ethernet");
    assert_eq!(eth.ethertype, ETHERTYPE_IPV4);
    let (ip, icmp_data) = parse_ipv4(ip_data).expect("ipv4");
    assert_eq!(ip.protocol, IP_PROTOCOL_ICMP);
    let (icmp, data) = parse_icmp(icmp_data).expect("icmp");
    assert_eq!(icmp.msg_type, ICMP_ECHO_REQUEST);
    assert_eq!(icmp.identifier, 0x1234);

    let rep = build_icmp_echo_reply(LOCAL_MAC, GATEWAY_MAC, LOCAL_IP, HOST_IP, 0x1234, 1, b"pingdata");
    let (_, ip_data) = parse_ethernet(&rep).expect("ethernet");
    let (ip, icmp_data) = parse_ipv4(ip_data).expect("ipv4");
    let (icmp, rep_data) = parse_icmp(icmp_data).expect("icmp");
    assert_eq!(icmp.msg_type, ICMP_ECHO_REPLY);
    assert_eq!(icmp.identifier, 0x1234);
    assert_eq!(icmp.sequence, 1);
    assert_eq!(rep_data, b"pingdata");
}

#[test]
fn tcp_syn_has_valid_ipv4_and_tcp_checksums() {
    let frame = tcp_segment(
        LOCAL_MAC,
        GATEWAY_MAC,
        LOCAL_IP,
        HOST_IP,
        49_153,
        18_080,
        7,
        0,
        TCP_SYN,
        b"",
    )
    .expect("small TCP frame");
    let bytes = frame.as_bytes();
    let ip = ETHERNET_HEADER_SIZE;
    let tcp = ip + 20;

    assert!(valid_checksum(&bytes[ip..tcp]));
    assert!(valid_tcp_checksum(LOCAL_IP, HOST_IP, &bytes[tcp..]));
    assert_eq!(read_u16(bytes, tcp), Some(49_153));
    assert_eq!(read_u16(bytes, tcp + 2), Some(18_080));
}

#[test]
fn tcp_reply_accepts_a_matching_syn_ack() {
    let reply = tcp_segment(
        GATEWAY_MAC,
        LOCAL_MAC,
        HOST_IP,
        LOCAL_IP,
        18_080,
        49_153,
        11,
        8,
        TCP_SYN | TCP_ACK,
        b"",
    )
    .expect("small TCP frame");

    let segment = tcp_reply(
        reply.as_bytes(),
        LOCAL_MAC,
        GATEWAY_MAC,
        LOCAL_IP,
        HOST_IP,
        49_153,
        18_080,
    )
    .expect("matching TCP reply");
    assert_eq!(segment.sequence, 11);
    assert_eq!(segment.acknowledgement, 8);
    assert_eq!(segment.flags, TCP_SYN | TCP_ACK);
    assert!(segment.payload.is_empty());
}

#[test]
fn tcp_reply_rejects_a_corrupt_checksum() {
    let mut reply = tcp_segment(
        GATEWAY_MAC,
        LOCAL_MAC,
        HOST_IP,
        LOCAL_IP,
        18_080,
        49_153,
        11,
        8,
        TCP_SYN | TCP_ACK,
        b"",
    )
    .expect("small TCP frame");
    reply.bytes[ETHERNET_HEADER_SIZE + 20 + 16] ^= 0xff;

    assert!(tcp_reply(
        reply.as_bytes(),
        LOCAL_MAC,
        GATEWAY_MAC,
        LOCAL_IP,
        HOST_IP,
        49_153,
        18_080,
    )
    .is_none());
}

#[test]
fn tcp_streaming_large_payload() {
    let mut large_data = [0u8; 1400];
    for (i, b) in large_data.iter_mut().enumerate() {
        *b = (i % 256) as u8;
    }
    let frame = build_tcp_frame(
        LOCAL_MAC,
        GATEWAY_MAC,
        LOCAL_IP,
        HOST_IP,
        50000,
        80,
        100,
        200,
        TCP_ACK | TCP_PSH,
        65535,
        &large_data,
    );
    let (eth, ip_data) = parse_ethernet(&frame).expect("ethernet");
    let (ip, tcp_data) = parse_ipv4(ip_data).expect("ipv4");
    let (tcp, payload) = parse_tcp(tcp_data, ip.src_ip, ip.dest_ip).expect("tcp");
    assert_eq!(tcp.src_port, 50000);
    assert_eq!(tcp.dest_port, 80);
    assert_eq!(tcp.sequence, 100);
    assert_eq!(tcp.acknowledgement, 200);
    assert_eq!(tcp.flags, TCP_ACK | TCP_PSH);
    assert_eq!(payload.len(), 1400);
    assert_eq!(payload, &large_data[..]);
}
