//! Ethernet, ARP, IPv4, ICMP, UDP and TCP wire formats.
//!
//! Every builder states the exact bytes it returns and every parser states
//! exactly which inputs it takes and what it reads from them. The laws at the
//! end of the file say that what a builder writes, the matching parser reads.
use vstd::prelude::*;
use vstd::slice::slice_subrange;

use crate::bytes::{
    self, array4_at, array6_at, get_be16, get_be32, holds_at, push_all, push_be16, push_be32, put,
    put_vec,
};

verus! {

pub type MacAddress = [u8; 6];

pub type Ipv4Address = [u8; 4];

pub const ETHERNET_HEADER_SIZE: usize = 14;

pub const ARP_PACKET_SIZE: usize = 28;

pub const IPV4_HEADER_SIZE: usize = 20;

pub const ICMP_HEADER_SIZE: usize = 8;

pub const UDP_HEADER_SIZE: usize = 8;

pub const TCP_HEADER_SIZE: usize = 20;

pub const ETHERTYPE_ARP: u16 = 0x0806;

pub const ETHERTYPE_IPV4: u16 = 0x0800;

pub const ARP_REQUEST: u16 = 1;

pub const ARP_REPLY: u16 = 2;

pub const IP_PROTOCOL_ICMP: u8 = 1;

pub const IP_PROTOCOL_TCP: u8 = 6;

pub const IP_PROTOCOL_UDP: u8 = 17;

pub const ICMP_ECHO_REPLY: u8 = 0;

pub const ICMP_ECHO_REQUEST: u8 = 8;

pub const TCP_FIN: u8 = 0x01;

pub const TCP_SYN: u8 = 0x02;

pub const TCP_RST: u8 = 0x04;

pub const TCP_PSH: u8 = 0x08;

pub const TCP_ACK: u8 = 0x10;

pub const TCP_URG: u8 = 0x20;

pub const MAX_TCP_PAYLOAD: usize = 1460;

pub const TCP_FRAME_CAPACITY: usize = 1514;

pub const BROADCAST_MAC: MacAddress = [0xff, 0xff, 0xff, 0xff, 0xff, 0xff];

#[derive(Clone, Copy, Debug, Eq, PartialEq)]
pub struct EthernetHeader {
    pub dest_mac: MacAddress,
    pub src_mac: MacAddress,
    pub ethertype: u16,
}

#[derive(Clone, Copy, Debug, Eq, PartialEq)]
pub struct ArpPacket {
    pub opcode: u16,
    pub sender_mac: MacAddress,
    pub sender_ip: Ipv4Address,
    pub target_mac: MacAddress,
    pub target_ip: Ipv4Address,
}

#[derive(Clone, Copy, Debug, Eq, PartialEq)]
pub struct Ipv4Header {
    pub version: u8,
    pub ihl: u8,
    pub tos: u8,
    pub total_length: u16,
    pub id: u16,
    pub flags_fragment: u16,
    pub ttl: u8,
    pub protocol: u8,
    pub checksum: u16,
    pub src_ip: Ipv4Address,
    pub dest_ip: Ipv4Address,
}

#[derive(Clone, Copy, Debug, Eq, PartialEq)]
pub struct IcmpHeader {
    pub msg_type: u8,
    pub code: u8,
    pub checksum: u16,
    pub identifier: u16,
    pub sequence: u16,
}

#[derive(Clone, Copy, Debug, Eq, PartialEq)]
pub struct UdpHeader {
    pub src_port: u16,
    pub dest_port: u16,
    pub length: u16,
    pub checksum: u16,
}

#[derive(Clone, Copy, Debug, Eq, PartialEq)]
pub struct TcpHeader {
    pub src_port: u16,
    pub dest_port: u16,
    pub sequence: u32,
    pub acknowledgement: u32,
    pub data_offset: usize,
    pub flags: u8,
    pub window_size: u16,
    pub checksum: u16,
    pub urgent_pointer: u16,
}

/// A frame in a buffer of fixed capacity.
pub struct TcpFrame {
    pub bytes: [u8; 1514],
    pub length: usize,
}

impl TcpFrame {
    pub open spec fn wf(&self) -> bool {
        self.length <= TCP_FRAME_CAPACITY
    }

    pub open spec fn view(&self) -> Seq<u8> {
        self.bytes@.take(self.length as int)
    }

    /// The used part of the buffer.
    pub fn as_bytes(&self) -> (r: &[u8])
        requires
            self.wf(),
        ensures
            r@ == self@,
    {
        let r = slice_subrange(self.bytes.as_slice(), 0, self.length);
        assert(r@ =~= self@);
        r
    }
}

pub struct TcpSegment<'a> {
    pub sequence: u32,
    pub acknowledgement: u32,
    pub flags: u8,
    pub payload: &'a [u8],
}

// ---------------------------------------------------------------------------
// The Internet checksum
// ---------------------------------------------------------------------------
/// The sum of the big-endian 16-bit words of `s`; an odd last byte counts as
/// the high half of a word.
pub open spec fn word_sum(s: Seq<u8>) -> int
    decreases s.len(),
{
    if s.len() == 0 {
        0
    } else if s.len() == 1 {
        s[0] * 256
    } else {
        bytes::be16_at(s, 0) + word_sum(s.skip(2))
    }
}

/// The 16-bit ones'-complement value of a non-negative sum: its residue modulo
/// 65535, with 65535 rather than 0 standing for a positive multiple.
pub open spec fn fold16(n: int) -> int {
    if n == 0 {
        0
    } else if n % 65535 == 0 {
        65535
    } else {
        n % 65535
    }
}

/// The Internet checksum of `s`.
pub open spec fn checksum_of(s: Seq<u8>) -> u16 {
    (65535 - fold16(word_sum(s))) as u16
}

/// Whether `s`, its checksum field included, sums to all ones.
pub open spec fn checksum_ok(s: Seq<u8>) -> bool {
    fold16(word_sum(s)) == 65535
}

/// The sum over the pseudo-header and the segment of a transport protocol.
pub open spec fn transport_sum(src: Seq<u8>, dst: Seq<u8>, protocol: u8, segment: Seq<u8>) -> int {
    word_sum(src) + word_sum(dst) + protocol + segment.len() % 65536 + word_sum(segment)
}

/// The transport checksum of `segment`.
pub open spec fn transport_checksum(
    src: Seq<u8>,
    dst: Seq<u8>,
    protocol: u8,
    segment: Seq<u8>,
) -> u16 {
    (65535 - fold16(transport_sum(src, dst, protocol, segment))) as u16
}

/// Whether `segment`, its checksum field included, is valid between `src` and `dst`.
pub open spec fn transport_ok(src: Seq<u8>, dst: Seq<u8>, protocol: u8, segment: Seq<u8>) -> bool {
    fold16(transport_sum(src, dst, protocol, segment)) == 65535
}

/// A transport checksum is sent as 65535 when it computes to zero.
pub open spec fn never_zero(c: u16) -> u16 {
    if c == 0 {
        0xffff
    } else {
        c
    }
}

pub proof fn lemma_word_sum_bounds(s: Seq<u8>)
    ensures
        0 <= word_sum(s) <= 65535 * ((s.len() + 1) / 2),
    decreases s.len(),
{
    if s.len() > 1 {
        lemma_word_sum_bounds(s.skip(2));
    }
}

/// No segment of at most 131062 bytes overflows the running 32-bit sum.
pub proof fn lemma_transport_sum_bounds(src: Seq<u8>, dst: Seq<u8>, protocol: u8, segment: Seq<u8>)
    requires
        src.len() == 4,
        dst.len() == 4,
        segment.len() <= 131062,
    ensures
        0 <= transport_sum(src, dst, protocol, segment) <= u32::MAX,
{
    lemma_word_sum_bounds(src);
    lemma_word_sum_bounds(dst);
    lemma_word_sum_bounds(segment);
}

pub proof fn lemma_word_sum_concat(a: Seq<u8>, b: Seq<u8>)
    requires
        a.len() % 2 == 0,
    ensures
        word_sum(a + b) == word_sum(a) + word_sum(b),
    decreases a.len(),
{
    if a.len() == 0 {
        assert(a + b =~= b);
    } else {
        lemma_word_sum_concat(a.skip(2), b);
        assert((a + b).skip(2) =~= a.skip(2) + b);
    }
}

proof fn lemma_word_sum_pair(x: u16)
    ensures
        word_sum(bytes::be16_bytes(x)) == x,
{
    let s = bytes::be16_bytes(x);
    assert(s.skip(2) =~= Seq::<u8>::empty());
    assert(word_sum(s.skip(2)) == 0);
}

/// Writing the complement of a sum into a zeroed checksum word makes the whole valid.
proof fn lemma_complement_seals(w: int)
    requires
        w >= 0,
    ensures
        0 <= fold16(w) <= 65535,
        fold16(w + (65535 - fold16(w))) == 65535,
        fold16(w) == 65535 ==> fold16(w + 65535) == 65535,
{
}

/// Sealing: a run of bytes around a zero checksum word becomes valid once the
/// checksum of the whole is written there.
pub proof fn lemma_checksum_seals(a: Seq<u8>, b: Seq<u8>)
    requires
        a.len() % 2 == 0,
    ensures
        checksum_ok(a + bytes::be16_bytes(checksum_of(a + bytes::be16_bytes(0) + b)) + b),
{
    let zeroed = a + bytes::be16_bytes(0) + b;
    let c = checksum_of(zeroed);
    lemma_word_sum_bounds(zeroed);
    lemma_complement_seals(word_sum(zeroed));
    lemma_word_sum_around(a, b, 0);
    lemma_word_sum_around(a, b, c);
}

proof fn lemma_word_sum_around(a: Seq<u8>, b: Seq<u8>, x: u16)
    requires
        a.len() % 2 == 0,
    ensures
        word_sum(a + bytes::be16_bytes(x) + b) == word_sum(a) + x + word_sum(b),
{
    lemma_word_sum_concat(a, bytes::be16_bytes(x));
    lemma_word_sum_concat(a + bytes::be16_bytes(x), b);
    lemma_word_sum_pair(x);
}

/// Sealing for a transport segment.
pub proof fn lemma_transport_seals(
    src: Seq<u8>,
    dst: Seq<u8>,
    protocol: u8,
    a: Seq<u8>,
    b: Seq<u8>,
)
    requires
        a.len() % 2 == 0,
    ensures
        transport_ok(
            src,
            dst,
            protocol,
            a + bytes::be16_bytes(
                never_zero(transport_checksum(src, dst, protocol, a + bytes::be16_bytes(0) + b)),
            ) + b,
        ),
{
    let zeroed = a + bytes::be16_bytes(0) + b;
    let c = never_zero(transport_checksum(src, dst, protocol, zeroed));
    lemma_word_sum_bounds(zeroed);
    lemma_word_sum_bounds(src);
    lemma_word_sum_bounds(dst);
    lemma_complement_seals(transport_sum(src, dst, protocol, zeroed));
    lemma_word_sum_around(a, b, 0);
    lemma_word_sum_around(a, b, c);
    assert((a + bytes::be16_bytes(c) + b).len() == zeroed.len());
}

fn add_ones_complement_sum(sum: u32, bytes: &[u8]) -> (r: u32)
    requires
        sum + word_sum(bytes@) <= u32::MAX,
    ensures
        r == sum + word_sum(bytes@),
{
    let mut total: u32 = sum;
    let mut index: usize = 0;
    assert(bytes@.skip(0) =~= bytes@);
    while bytes.len() - index > 1
        invariant
            index <= bytes.len(),
            total + word_sum(bytes@.skip(index as int)) == sum + word_sum(bytes@),
            sum + word_sum(bytes@) <= u32::MAX,
        decreases bytes.len() - index,
    {
        let word: u16 = get_be16(bytes, index);
        proof {
            let rest = bytes@.skip(index as int);
            lemma_word_sum_bounds(rest.skip(2));
            assert(rest.skip(2) =~= bytes@.skip(index + 2));
        }
        total += word as u32;
        index += 2;
    }
    if index < bytes.len() {
        total += (bytes[index] as u32) * 256;
    }
    total
}

fn fold_ones_complement_sum(sum: u32) -> (r: u16)
    ensures
        r == fold16(sum as int),
{
    let mut value: u32 = sum;
    while value / 65536 != 0
        invariant
            fold16(value as int) == fold16(sum as int),
        decreases value,
    {
        let next: u32 = value % 65536 + value / 65536;
        assert(fold16(next as int) == fold16(value as int)) by {
            assert(value == next + 65535 * (value / 65536));
            vstd::arithmetic::div_mod::lemma_mod_multiples_vanish(
                (value / 65536) as int,
                next as int,
                65535,
            );
        }
        value = next;
    }
    value as u16
}

fn ones_complement_sum(bytes: &[u8]) -> (r: u16)
    requires
        word_sum(bytes@) <= u32::MAX,
    ensures
        r == fold16(word_sum(bytes@)),
{
    fold_ones_complement_sum(add_ones_complement_sum(0, bytes))
}

fn transport_sum_of(
    source: &Ipv4Address,
    destination: &Ipv4Address,
    protocol: u8,
    segment: &[u8],
) -> (r: u32)
    requires
        transport_sum(source@, destination@, protocol, segment@) <= u32::MAX,
    ensures
        r == transport_sum(source@, destination@, protocol, segment@),
{
    proof {
        lemma_word_sum_bounds(source@);
        lemma_word_sum_bounds(destination@);
        lemma_word_sum_bounds(segment@);
    }
    let mut sum: u32 = add_ones_complement_sum(0, source.as_slice());
    sum = add_ones_complement_sum(sum, destination.as_slice());
    sum = sum + protocol as u32;
    sum = sum + (segment.len() % 65536) as u32;
    add_ones_complement_sum(sum, segment)
}

pub fn checksum(bytes: &[u8]) -> (r: u16)
    requires
        word_sum(bytes@) <= u32::MAX,
    ensures
        r == checksum_of(bytes@),
{
    u16::MAX - ones_complement_sum(bytes)
}

pub fn valid_checksum(bytes: &[u8]) -> (r: bool)
    requires
        word_sum(bytes@) <= u32::MAX,
    ensures
        r == checksum_ok(bytes@),
{
    ones_complement_sum(bytes) == u16::MAX
}

pub fn udp_checksum(source: Ipv4Address, destination: Ipv4Address, datagram: &[u8]) -> (r: u16)
    requires
        transport_sum(source@, destination@, IP_PROTOCOL_UDP, datagram@) <= u32::MAX,
    ensures
        r == transport_checksum(source@, destination@, IP_PROTOCOL_UDP, datagram@),
{
    u16::MAX - fold_ones_complement_sum(
        transport_sum_of(&source, &destination, IP_PROTOCOL_UDP, datagram),
    )
}

pub fn valid_udp_checksum(
    source: Ipv4Address,
    destination: Ipv4Address,
    datagram: &[u8],
) -> (r: bool)
    requires
        transport_sum(source@, destination@, IP_PROTOCOL_UDP, datagram@) <= u32::MAX,
    ensures
        r == transport_ok(source@, destination@, IP_PROTOCOL_UDP, datagram@),
{
    fold_ones_complement_sum(transport_sum_of(&source, &destination, IP_PROTOCOL_UDP, datagram))
        == u16::MAX
}

pub fn tcp_checksum(source: Ipv4Address, destination: Ipv4Address, segment: &[u8]) -> (r: u16)
    requires
        transport_sum(source@, destination@, IP_PROTOCOL_TCP, segment@) <= u32::MAX,
    ensures
        r == transport_checksum(source@, destination@, IP_PROTOCOL_TCP, segment@),
{
    u16::MAX - fold_ones_complement_sum(
        transport_sum_of(&source, &destination, IP_PROTOCOL_TCP, segment),
    )
}

pub fn valid_tcp_checksum(
    source: Ipv4Address,
    destination: Ipv4Address,
    segment: &[u8],
) -> (r: bool)
    requires
        transport_sum(source@, destination@, IP_PROTOCOL_TCP, segment@) <= u32::MAX,
    ensures
        r == transport_ok(source@, destination@, IP_PROTOCOL_TCP, segment@),
{
    fold_ones_complement_sum(transport_sum_of(&source, &destination, IP_PROTOCOL_TCP, segment))
        == u16::MAX
}

// ---------------------------------------------------------------------------
// Big-endian fields
// ---------------------------------------------------------------------------
pub fn write_u16(bytes: &mut [u8], offset: usize, value: u16)
    requires
        offset + 2 <= old(bytes).len(),
    ensures
        final(bytes)@ == bytes::splice(old(bytes)@, offset as int, bytes::be16_bytes(value)),
{
    bytes[offset] = (value / 256) as u8;
    bytes[offset + 1] = (value % 256) as u8;
    assert(bytes@ =~= bytes::splice(old(bytes)@, offset as int, bytes::be16_bytes(value)));
}

pub fn write_u32(bytes: &mut [u8], offset: usize, value: u32)
    requires
        offset + 4 <= old(bytes).len(),
    ensures
        final(bytes)@ == bytes::splice(old(bytes)@, offset as int, bytes::be32_bytes(value)),
{
    bytes[offset] = (value / 0x100_0000) as u8;
    bytes[offset + 1] = (value / 0x1_0000 % 256) as u8;
    bytes[offset + 2] = (value / 0x100 % 256) as u8;
    bytes[offset + 3] = (value % 256) as u8;
    assert(bytes@ =~= bytes::splice(old(bytes)@, offset as int, bytes::be32_bytes(value)));
}

pub fn read_u16(bytes: &[u8], offset: usize) -> (r: Option<u16>)
    requires
        offset + 2 <= usize::MAX,
    ensures
        r is Some <==> offset + 2 <= bytes.len(),
        r matches Some(value) ==> value == bytes::be16_at(bytes@, offset as int),
{
    if offset + 2 <= bytes.len() {
        Some(get_be16(bytes, offset))
    } else {
        None
    }
}

pub fn read_u32(bytes: &[u8], offset: usize) -> (r: Option<u32>)
    requires
        offset + 4 <= usize::MAX,
    ensures
        r is Some <==> offset + 4 <= bytes.len(),
        r matches Some(value) ==> value == bytes::be32_at(bytes@, offset as int),
{
    if offset + 4 <= bytes.len() {
        Some(get_be32(bytes, offset))
    } else {
        None
    }
}

// ---------------------------------------------------------------------------
// Ethernet
// ---------------------------------------------------------------------------
/// An Ethernet frame.
pub open spec fn eth_frame(dst: Seq<u8>, src: Seq<u8>, ethertype: u16, payload: Seq<u8>) -> Seq<
    u8,
> {
    dst + src + bytes::be16_bytes(ethertype) + payload
}

/// Whether `header` holds the fields of the Ethernet header that starts `frame`.
pub open spec fn eth_header_of(frame: Seq<u8>, header: EthernetHeader) -> bool {
    &&& header.dest_mac@ == frame.subrange(0, 6)
    &&& header.src_mac@ == frame.subrange(6, 12)
    &&& header.ethertype == bytes::be16_at(frame, 12)
}

pub fn parse_ethernet(frame: &[u8]) -> (r: Option<(EthernetHeader, &[u8])>)
    ensures
        r is Some <==> frame.len() >= ETHERNET_HEADER_SIZE,
        r matches Some((header, payload)) ==> eth_header_of(frame@, header) && payload@
            == frame@.skip(14),
{
    if frame.len() < ETHERNET_HEADER_SIZE {
        return None;
    }
    let header = EthernetHeader {
        dest_mac: array6_at(frame, 0),
        src_mac: array6_at(frame, 6),
        ethertype: get_be16(frame, 12),
    };
    let payload = slice_subrange(frame, ETHERNET_HEADER_SIZE, frame.len());
    assert(payload@ =~= frame@.skip(14));
    Some((header, payload))
}

pub fn build_ethernet(
    dest_mac: MacAddress,
    src_mac: MacAddress,
    ethertype: u16,
    payload: &[u8],
) -> (r: Vec<u8>)
    requires
        ETHERNET_HEADER_SIZE + payload.len() <= usize::MAX,
    ensures
        r@ == eth_frame(dest_mac@, src_mac@, ethertype, payload@),
{
    let mut frame: Vec<u8> = Vec::with_capacity(ETHERNET_HEADER_SIZE + payload.len());
    push_all(&mut frame, dest_mac.as_slice());
    push_all(&mut frame, src_mac.as_slice());
    push_be16(&mut frame, ethertype);
    push_all(&mut frame, payload);
    assert(frame@ =~= eth_frame(dest_mac@, src_mac@, ethertype, payload@));
    frame
}

// ---------------------------------------------------------------------------
// ARP
// ---------------------------------------------------------------------------
/// The body of an ARP packet for IPv4 over Ethernet.
pub open spec fn arp_body(
    opcode: u16,
    sender_mac: Seq<u8>,
    sender_ip: Seq<u8>,
    target_mac: Seq<u8>,
    target_ip: Seq<u8>,
) -> Seq<u8> {
    bytes::be16_bytes(1) + bytes::be16_bytes(ETHERTYPE_IPV4) + seq![6u8, 4u8] + bytes::be16_bytes(opcode) + sender_mac
        + sender_ip + target_mac + target_ip
}

/// Whether `body` is an ARP packet for IPv4 over Ethernet.
pub open spec fn is_arp(body: Seq<u8>) -> bool {
    &&& body.len() >= ARP_PACKET_SIZE
    &&& bytes::be16_at(body, 0) == 1
    &&& bytes::be16_at(body, 2) == ETHERTYPE_IPV4
    &&& body[4] == 6
    &&& body[5] == 4
}

/// Whether `packet` holds the fields of the ARP packet `body`.
pub open spec fn arp_of(body: Seq<u8>, packet: ArpPacket) -> bool {
    &&& packet.opcode == bytes::be16_at(body, 6)
    &&& packet.sender_mac@ == body.subrange(8, 14)
    &&& packet.sender_ip@ == body.subrange(14, 18)
    &&& packet.target_mac@ == body.subrange(18, 24)
    &&& packet.target_ip@ == body.subrange(24, 28)
}

pub fn parse_arp(payload: &[u8]) -> (r: Option<ArpPacket>)
    ensures
        r is Some <==> is_arp(payload@),
        r matches Some(packet) ==> arp_of(payload@, packet),
{
    if payload.len() < ARP_PACKET_SIZE {
        return None;
    }
    if get_be16(payload, 0) != 1 || get_be16(payload, 2) != ETHERTYPE_IPV4 || payload[4] != 6
        || payload[5] != 4 {
        return None;
    }
    Some(
        ArpPacket {
            opcode: get_be16(payload, 6),
            sender_mac: array6_at(payload, 8),
            sender_ip: array4_at(payload, 14),
            target_mac: array6_at(payload, 18),
            target_ip: array4_at(payload, 24),
        },
    )
}

fn arp_frame(
    dest_mac: &MacAddress,
    opcode: u16,
    local_mac: &MacAddress,
    local_ip: &Ipv4Address,
    target_mac: &MacAddress,
    target_ip: &Ipv4Address,
) -> (r: [u8; 42])
    ensures
        r@ == eth_frame(
            dest_mac@,
            local_mac@,
            ETHERTYPE_ARP,
            arp_body(opcode, local_mac@, local_ip@, target_mac@, target_ip@),
        ),
{
    let mut frame: [u8; 42] = [0u8; 42];
    put(&mut frame, 0, dest_mac.as_slice());
    put(&mut frame, 6, local_mac.as_slice());
    write_u16(&mut frame, 12, ETHERTYPE_ARP);
    write_u16(&mut frame, 14, 1);
    write_u16(&mut frame, 16, ETHERTYPE_IPV4);
    frame[18] = 6;
    frame[19] = 4;
    write_u16(&mut frame, 20, opcode);
    put(&mut frame, 22, local_mac.as_slice());
    put(&mut frame, 28, local_ip.as_slice());
    put(&mut frame, 32, target_mac.as_slice());
    put(&mut frame, 38, target_ip.as_slice());
    assert(frame@ =~= eth_frame(
        dest_mac@,
        local_mac@,
        ETHERTYPE_ARP,
        arp_body(opcode, local_mac@, local_ip@, target_mac@, target_ip@),
    ));
    frame
}

/// A broadcast question for the hardware address of `target_ip`.
pub fn arp_request(
    local_mac: MacAddress,
    local_ip: Ipv4Address,
    target_ip: Ipv4Address,
) -> (r: [u8; 42])
    ensures
        r@ == eth_frame(
            Seq::new(6, |i: int| 0xffu8),
            local_mac@,
            ETHERTYPE_ARP,
            arp_body(ARP_REQUEST, local_mac@, local_ip@, bytes::zeros(6), target_ip@),
        ),
{
    let everyone: MacAddress = [0xff, 0xff, 0xff, 0xff, 0xff, 0xff];
    let nobody: MacAddress = [0, 0, 0, 0, 0, 0];
    assert(everyone@ =~= Seq::new(6, |i: int| 0xffu8));
    assert(nobody@ =~= bytes::zeros(6));
    arp_frame(&everyone, ARP_REQUEST, &local_mac, &local_ip, &nobody, &target_ip)
}

pub fn arp_reply(
    local_mac: MacAddress,
    local_ip: Ipv4Address,
    target_mac: MacAddress,
    target_ip: Ipv4Address,
) -> (r: [u8; 42])
    ensures
        r@ == eth_frame(
            target_mac@,
            local_mac@,
            ETHERTYPE_ARP,
            arp_body(ARP_REPLY, local_mac@, local_ip@, target_mac@, target_ip@),
        ),
{
    arp_frame(&target_mac, ARP_REPLY, &local_mac, &local_ip, &target_mac, &target_ip)
}

/// Whether `frame` is an ARP reply from `sender` to `local`.
pub open spec fn is_arp_reply(frame: Seq<u8>, local: Seq<u8>, sender: Seq<u8>) -> bool {
    &&& frame.len() >= ETHERNET_HEADER_SIZE + ARP_PACKET_SIZE
    &&& bytes::be16_at(frame, 12) == ETHERTYPE_ARP
    &&& bytes::be16_at(frame, 14) == 1
    &&& bytes::be16_at(frame, 16) == ETHERTYPE_IPV4
    &&& frame[18] == 6
    &&& frame[19] == 4
    &&& bytes::be16_at(frame, 20) == ARP_REPLY
    &&& frame.subrange(28, 32) == sender
    &&& frame.subrange(38, 42) == local
}

pub fn arp_reply_mac(
    frame: &[u8],
    local_ip: Ipv4Address,
    expected_sender: Ipv4Address,
) -> (r: Option<MacAddress>)
    ensures
        r is Some <==> is_arp_reply(frame@, local_ip@, expected_sender@),
        r matches Some(mac) ==> mac@ == frame@.subrange(22, 28),
{
    if frame.len() < ETHERNET_HEADER_SIZE + ARP_PACKET_SIZE {
        return None;
    }
    if get_be16(frame, 12) != ETHERTYPE_ARP || get_be16(frame, 14) != 1 || get_be16(frame, 16)
        != ETHERTYPE_IPV4 || frame[18] != 6 || frame[19] != 4 || get_be16(frame, 20) != ARP_REPLY
        || !holds_at(frame, 28, expected_sender.as_slice()) || !holds_at(
        frame,
        38,
        local_ip.as_slice(),
    ) {
        return None;
    }
    Some(array6_at(frame, 22))
}

// ---------------------------------------------------------------------------
// IPv4
// ---------------------------------------------------------------------------
/// A 20-byte IPv4 header with the given checksum field.
pub open spec fn ipv4_header(
    total: u16,
    id: u16,
    flags_fragment: u16,
    ttl: u8,
    protocol: u8,
    sum: u16,
    src: Seq<u8>,
    dst: Seq<u8>,
) -> Seq<u8> {
    seq![0x45u8, 0u8] + bytes::be16_bytes(total) + bytes::be16_bytes(id) + bytes::be16_bytes(flags_fragment) + seq![
        ttl,
        protocol,
    ] + bytes::be16_bytes(sum) + src + dst
}

/// A 20-byte IPv4 header with its own checksum.
pub open spec fn ipv4_sealed_header(
    total: u16,
    id: u16,
    flags_fragment: u16,
    ttl: u8,
    protocol: u8,
    src: Seq<u8>,
    dst: Seq<u8>,
) -> Seq<u8> {
    ipv4_header(
        total,
        id,
        flags_fragment,
        ttl,
        protocol,
        checksum_of(ipv4_header(total, id, flags_fragment, ttl, protocol, 0, src, dst)),
        src,
        dst,
    )
}

/// An Ethernet frame that carries `payload` in an IPv4 packet without options.
/// The length field holds the low sixteen bits of the packet length.
pub open spec fn ipv4_frame(
    src_mac: Seq<u8>,
    dst_mac: Seq<u8>,
    src: Seq<u8>,
    dst: Seq<u8>,
    protocol: u8,
    id: u16,
    flags_fragment: u16,
    ttl: u8,
    payload: Seq<u8>,
) -> Seq<u8> {
    eth_frame(
        dst_mac,
        src_mac,
        ETHERTYPE_IPV4,
        ipv4_sealed_header(
            ((20 + payload.len()) % 65536) as u16,
            id,
            flags_fragment,
            ttl,
            protocol,
            src,
            dst,
        ) + payload,
    )
}

/// The length in bytes of the IPv4 header that starts `packet`.
pub open spec fn ipv4_header_length(packet: Seq<u8>) -> int {
    (packet[0] % 16) * 4
}

/// Where the IPv4 packet ends: at its total length or where the bytes run out.
pub open spec fn ipv4_end(packet: Seq<u8>) -> int {
    if bytes::be16_at(packet, 2) <= packet.len() {
        bytes::be16_at(packet, 2)
    } else {
        packet.len() as int
    }
}

/// Whether `packet` starts with a valid IPv4 packet.
pub open spec fn is_ipv4(packet: Seq<u8>) -> bool {
    &&& packet.len() >= IPV4_HEADER_SIZE
    &&& packet[0] / 16 == 4
    &&& IPV4_HEADER_SIZE <= ipv4_header_length(packet) <= packet.len()
    &&& checksum_ok(packet.take(ipv4_header_length(packet)))
    &&& ipv4_header_length(packet) <= ipv4_end(packet)
}

/// Whether `header` holds the fields of the IPv4 header that starts `packet`.
pub open spec fn ipv4_header_of(packet: Seq<u8>, header: Ipv4Header) -> bool {
    &&& header.version == packet[0] / 16
    &&& header.ihl == packet[0] % 16
    &&& header.tos == packet[1]
    &&& header.total_length == bytes::be16_at(packet, 2)
    &&& header.id == bytes::be16_at(packet, 4)
    &&& header.flags_fragment == bytes::be16_at(packet, 6)
    &&& header.ttl == packet[8]
    &&& header.protocol == packet[9]
    &&& header.checksum == bytes::be16_at(packet, 10)
    &&& header.src_ip@ == packet.subrange(12, 16)
    &&& header.dest_ip@ == packet.subrange(16, 20)
}

pub fn parse_ipv4(payload: &[u8]) -> (r: Option<(Ipv4Header, &[u8])>)
    ensures
        r is Some <==> is_ipv4(payload@),
        r matches Some((header, body)) ==> ipv4_header_of(payload@, header) && body@
            == payload@.subrange(ipv4_header_length(payload@), ipv4_end(payload@)),
{
    if payload.len() < IPV4_HEADER_SIZE {
        return None;
    }
    let version: u8 = payload[0] / 16;
    let ihl: u8 = payload[0] % 16;
    let header_length: usize = (ihl as usize) * 4;
    if version != 4 || header_length < IPV4_HEADER_SIZE || payload.len() < header_length {
        return None;
    }
    let header_bytes = slice_subrange(payload, 0, header_length);
    proof {
        lemma_word_sum_bounds(header_bytes@);
        assert(header_bytes@ =~= payload@.take(header_length as int));
    }
    if !valid_checksum(header_bytes) {
        return None;
    }
    let total_length: u16 = get_be16(payload, 2);
    let packet_total: usize = if total_length as usize <= payload.len() {
        total_length as usize
    } else {
        payload.len()
    };
    if packet_total < header_length {
        return None;
    }
    let header = Ipv4Header {
        version,
        ihl,
        tos: payload[1],
        total_length,
        id: get_be16(payload, 4),
        flags_fragment: get_be16(payload, 6),
        ttl: payload[8],
        protocol: payload[9],
        checksum: get_be16(payload, 10),
        src_ip: array4_at(payload, 12),
        dest_ip: array4_at(payload, 16),
    };
    Some((header, slice_subrange(payload, header_length, packet_total)))
}

fn ipv4_header_bytes(
    total: u16,
    id: u16,
    flags_fragment: u16,
    ttl: u8,
    protocol: u8,
    src_ip: &Ipv4Address,
    dest_ip: &Ipv4Address,
) -> (r: [u8; 20])
    ensures
        r@ == ipv4_sealed_header(total, id, flags_fragment, ttl, protocol, src_ip@, dest_ip@),
{
    let mut header: [u8; 20] = [0u8; 20];
    header[0] = 0x45;
    write_u16(&mut header, 2, total);
    write_u16(&mut header, 4, id);
    write_u16(&mut header, 6, flags_fragment);
    header[8] = ttl;
    header[9] = protocol;
    put(&mut header, 12, src_ip.as_slice());
    put(&mut header, 16, dest_ip.as_slice());
    proof {
        assert(header@ =~= ipv4_header(
            total,
            id,
            flags_fragment,
            ttl,
            protocol,
            0,
            src_ip@,
            dest_ip@,
        ));
        lemma_word_sum_bounds(header@);
    }
    let sum: u16 = checksum(header.as_slice());
    write_u16(&mut header, 10, sum);
    assert(header@ =~= ipv4_sealed_header(
        total,
        id,
        flags_fragment,
        ttl,
        protocol,
        src_ip@,
        dest_ip@,
    ));
    header
}

fn ipv4_frame_bytes(
    src_mac: &MacAddress,
    dest_mac: &MacAddress,
    src_ip: &Ipv4Address,
    dest_ip: &Ipv4Address,
    protocol: u8,
    id: u16,
    flags_fragment: u16,
    ttl: u8,
    payload: &[u8],
) -> (r: Vec<u8>)
    requires
        payload.len() + 34 <= usize::MAX,
    ensures
        r@ == ipv4_frame(
            src_mac@,
            dest_mac@,
            src_ip@,
            dest_ip@,
            protocol,
            id,
            flags_fragment,
            ttl,
            payload@,
        ),
{
    let total_ip_len: usize = IPV4_HEADER_SIZE + payload.len();
    let mut frame: Vec<u8> = Vec::with_capacity(ETHERNET_HEADER_SIZE + total_ip_len);
    push_all(&mut frame, dest_mac.as_slice());
    push_all(&mut frame, src_mac.as_slice());
    push_be16(&mut frame, ETHERTYPE_IPV4);
    let header = ipv4_header_bytes(
        (total_ip_len % 65536) as u16,
        id,
        flags_fragment,
        ttl,
        protocol,
        src_ip,
        dest_ip,
    );
    push_all(&mut frame, header.as_slice());
    push_all(&mut frame, payload);
    assert(frame@ =~= ipv4_frame(
        src_mac@,
        dest_mac@,
        src_ip@,
        dest_ip@,
        protocol,
        id,
        flags_fragment,
        ttl,
        payload@,
    ));
    frame
}

/// An IPv4 packet marked "don't fragment".
pub fn build_ipv4_packet(
    src_mac: MacAddress,
    dest_mac: MacAddress,
    src_ip: Ipv4Address,
    dest_ip: Ipv4Address,
    protocol: u8,
    id: u16,
    ttl: u8,
    payload: &[u8],
) -> (r: Vec<u8>)
    requires
        payload.len() + 34 <= usize::MAX,
    ensures
        r@ == ipv4_frame(
            src_mac@,
            dest_mac@,
            src_ip@,
            dest_ip@,
            protocol,
            id,
            0x4000,
            ttl,
            payload@,
        ),
{
    ipv4_frame_bytes(&src_mac, &dest_mac, &src_ip, &dest_ip, protocol, id, 0x4000, ttl, payload)
}

// ---------------------------------------------------------------------------
// ICMP
// ---------------------------------------------------------------------------
/// An ICMP echo message with the given checksum field.
pub open spec fn echo_message(msg_type: u8, sum: u16, id: u16, sequence: u16, data: Seq<u8>) -> Seq<
    u8,
> {
    seq![msg_type, 0u8] + bytes::be16_bytes(sum) + bytes::be16_bytes(id) + bytes::be16_bytes(sequence) + data
}

/// An ICMP echo message with its own checksum.
pub open spec fn sealed_echo_message(msg_type: u8, id: u16, sequence: u16, data: Seq<u8>) -> Seq<u8> {
    echo_message(
        msg_type,
        checksum_of(echo_message(msg_type, 0, id, sequence, data)),
        id,
        sequence,
        data,
    )
}

/// Whether `message` is a valid ICMP message.
pub open spec fn is_control_message(message: Seq<u8>) -> bool {
    message.len() >= ICMP_HEADER_SIZE && checksum_ok(message)
}

/// Whether `header` holds the fields of the ICMP header that starts `message`.
pub open spec fn control_header_of(message: Seq<u8>, header: IcmpHeader) -> bool {
    &&& header.msg_type == message[0]
    &&& header.code == message[1]
    &&& header.checksum == bytes::be16_at(message, 2)
    &&& header.identifier == bytes::be16_at(message, 4)
    &&& header.sequence == bytes::be16_at(message, 6)
}

pub fn parse_icmp(payload: &[u8]) -> (r: Option<(IcmpHeader, &[u8])>)
    requires
        word_sum(payload@) <= u32::MAX,
    ensures
        r is Some <==> is_control_message(payload@),
        r matches Some((header, data)) ==> control_header_of(payload@, header) && data@
            == payload@.skip(8),
{
    if payload.len() < ICMP_HEADER_SIZE {
        return None;
    }
    if !valid_checksum(payload) {
        return None;
    }
    let header = IcmpHeader {
        msg_type: payload[0],
        code: payload[1],
        checksum: get_be16(payload, 2),
        identifier: get_be16(payload, 4),
        sequence: get_be16(payload, 6),
    };
    let data = slice_subrange(payload, ICMP_HEADER_SIZE, payload.len());
    assert(data@ =~= payload@.skip(8));
    Some((header, data))
}

fn echo_message_bytes(msg_type: u8, identifier: u16, sequence: u16, data: &[u8]) -> (r: Vec<u8>)
    requires
        data.len() + 8 <= usize::MAX,
        word_sum(echo_message(msg_type, 0, identifier, sequence, data@)) <= u32::MAX,
    ensures
        r@ == sealed_echo_message(msg_type, identifier, sequence, data@),
{
    let mut message: Vec<u8> = Vec::with_capacity(ICMP_HEADER_SIZE + data.len());
    message.push(msg_type);
    message.push(0);
    push_be16(&mut message, 0);
    push_be16(&mut message, identifier);
    push_be16(&mut message, sequence);
    push_all(&mut message, data);
    assert(message@ =~= echo_message(msg_type, 0, identifier, sequence, data@));
    let sum: u16 = checksum(message.as_slice());
    put_vec(&mut message, 2, [(sum / 256) as u8, (sum % 256) as u8].as_slice());
    assert(message@ =~= sealed_echo_message(msg_type, identifier, sequence, data@));
    message
}

/// An echo request with no data and sequence number 1.
pub fn icmp_echo_request(
    local_mac: MacAddress,
    gateway_mac: MacAddress,
    local_ip: Ipv4Address,
    target_ip: Ipv4Address,
    identifier: u16,
) -> (r: [u8; 42])
    ensures
        r@ == ipv4_frame(
            local_mac@,
            gateway_mac@,
            local_ip@,
            target_ip@,
            IP_PROTOCOL_ICMP,
            identifier,
            0,
            64,
            sealed_echo_message(ICMP_ECHO_REQUEST, identifier, 1, Seq::empty()),
        ),
{
    let nothing: [u8; 0] = [];
    proof {
        assert(nothing@ =~= Seq::<u8>::empty());
        lemma_word_sum_bounds(echo_message(ICMP_ECHO_REQUEST, 0, identifier, 1, nothing@));
    }
    let message = echo_message_bytes(ICMP_ECHO_REQUEST, identifier, 1, nothing.as_slice());
    let built = ipv4_frame_bytes(
        &local_mac,
        &gateway_mac,
        &local_ip,
        &target_ip,
        IP_PROTOCOL_ICMP,
        identifier,
        0,
        64,
        message.as_slice(),
    );
    let mut frame: [u8; 42] = [0u8; 42];
    put(&mut frame, 0, built.as_slice());
    assert(frame@ =~= built@);
    frame
}

pub fn build_icmp_echo_reply(
    local_mac: MacAddress,
    target_mac: MacAddress,
    local_ip: Ipv4Address,
    target_ip: Ipv4Address,
    identifier: u16,
    sequence: u16,
    data: &[u8],
) -> (r: Vec<u8>)
    requires
        data.len() + 42 <= usize::MAX,
        word_sum(echo_message(ICMP_ECHO_REPLY, 0, identifier, sequence, data@)) <= u32::MAX,
    ensures
        r@ == ipv4_frame(
            local_mac@,
            target_mac@,
            local_ip@,
            target_ip@,
            IP_PROTOCOL_ICMP,
            identifier,
            0x4000,
            64,
            sealed_echo_message(ICMP_ECHO_REPLY, identifier, sequence, data@),
        ),
{
    let message = echo_message_bytes(ICMP_ECHO_REPLY, identifier, sequence, data);
    build_ipv4_packet(
        local_mac,
        target_mac,
        local_ip,
        target_ip,
        IP_PROTOCOL_ICMP,
        identifier,
        64,
        message.as_slice(),
    )
}

/// Whether `frame` is an echo reply from `sender` to `local` that carries `id`.
pub open spec fn echo_reply_frame(
    frame: Seq<u8>,
    local: Seq<u8>,
    sender: Seq<u8>,
    id: u16,
) -> bool {
    let packet = frame.skip(14);
    let header = ipv4_header_length(packet);
    let total = bytes::be16_at(packet, 2);
    &&& frame.len() >= 42
    &&& bytes::be16_at(frame, 12) == ETHERTYPE_IPV4
    &&& packet[0] / 16 == 4
    &&& header >= 20
    &&& header + 8 <= total <= packet.len()
    &&& packet[9] == IP_PROTOCOL_ICMP
    &&& packet.subrange(12, 16) == sender
    &&& packet.subrange(16, 20) == local
    &&& checksum_ok(packet.take(header))
    &&& packet[header] == ICMP_ECHO_REPLY
    &&& packet[header + 1] == 0
    &&& bytes::be16_at(packet, header + 4) == id
    &&& checksum_ok(packet.subrange(header, total))
}

pub fn is_icmp_echo_reply(
    frame: &[u8],
    local_ip: Ipv4Address,
    expected_sender: Ipv4Address,
    identifier: u16,
) -> (r: bool)
    ensures
        r == echo_reply_frame(frame@, local_ip@, expected_sender@, identifier),
{
    answers_echo(frame, &local_ip, &expected_sender, identifier)
}

fn answers_echo(
    frame: &[u8],
    local_ip: &Ipv4Address,
    expected_sender: &Ipv4Address,
    identifier: u16,
) -> (r: bool)
    ensures
        r == echo_reply_frame(frame@, local_ip@, expected_sender@, identifier),
{
    if frame.len() < 42 || get_be16(frame, 12) != ETHERTYPE_IPV4 {
        return false;
    }
    let packet = slice_subrange(frame, 14, frame.len());
    assert(packet@ =~= frame@.skip(14));
    let header_length: usize = (packet[0] % 16) as usize * 4;
    let total_length: usize = get_be16(packet, 2) as usize;
    if packet[0] / 16 != 4 || header_length < 20 || total_length < header_length + 8
        || packet.len() < total_length || packet[9] != IP_PROTOCOL_ICMP || !holds_at(
        packet,
        12,
        expected_sender.as_slice(),
    ) || !holds_at(packet, 16, local_ip.as_slice()) {
        return false;
    }
    let header_bytes = slice_subrange(packet, 0, header_length);
    let message = slice_subrange(packet, header_length, total_length);
    proof {
        lemma_word_sum_bounds(header_bytes@);
        lemma_word_sum_bounds(message@);
        assert(header_bytes@ =~= packet@.take(header_length as int));
    }
    valid_checksum(header_bytes) && packet[header_length] == ICMP_ECHO_REPLY && packet[header_length
        + 1] == 0 && get_be16(packet, header_length + 4) == identifier && valid_checksum(message)
}

// ---------------------------------------------------------------------------
// UDP
// ---------------------------------------------------------------------------
/// A UDP datagram with the given checksum field.
pub open spec fn udp_datagram(src_port: u16, dst_port: u16, sum: u16, payload: Seq<u8>) -> Seq<u8> {
    bytes::be16_bytes(src_port) + bytes::be16_bytes(dst_port) + bytes::be16_bytes(((8 + payload.len()) % 65536) as u16)
        + bytes::be16_bytes(sum) + payload
}

/// A UDP datagram with its checksum between `src` and `dst`.
pub open spec fn udp_sealed(
    src: Seq<u8>,
    dst: Seq<u8>,
    src_port: u16,
    dst_port: u16,
    payload: Seq<u8>,
) -> Seq<u8> {
    udp_datagram(
        src_port,
        dst_port,
        never_zero(
            transport_checksum(
                src,
                dst,
                IP_PROTOCOL_UDP,
                udp_datagram(src_port, dst_port, 0, payload),
            ),
        ),
        payload,
    )
}

/// Where the datagram ends: at its length or where the bytes run out.
pub open spec fn udp_end(datagram: Seq<u8>) -> int {
    if bytes::be16_at(datagram, 4) <= datagram.len() {
        bytes::be16_at(datagram, 4)
    } else {
        datagram.len() as int
    }
}

/// Whether `datagram` starts with a valid UDP datagram from `src` to `dst`.
pub open spec fn is_udp(datagram: Seq<u8>, src: Seq<u8>, dst: Seq<u8>) -> bool {
    &&& datagram.len() >= UDP_HEADER_SIZE
    &&& udp_end(datagram) >= UDP_HEADER_SIZE
    &&& bytes::be16_at(datagram, 6) == 0 || transport_ok(
        src,
        dst,
        IP_PROTOCOL_UDP,
        datagram.take(udp_end(datagram)),
    )
}

/// Whether `header` holds the fields of the UDP header that starts `datagram`.
pub open spec fn udp_header_of(datagram: Seq<u8>, header: UdpHeader) -> bool {
    &&& header.src_port == bytes::be16_at(datagram, 0)
    &&& header.dest_port == bytes::be16_at(datagram, 2)
    &&& header.length == bytes::be16_at(datagram, 4)
    &&& header.checksum == bytes::be16_at(datagram, 6)
}

pub fn parse_udp<'a>(
    payload: &'a [u8],
    src_ip: Ipv4Address,
    dest_ip: Ipv4Address,
) -> (r: Option<(UdpHeader, &'a [u8])>)
    ensures
        r is Some <==> is_udp(payload@, src_ip@, dest_ip@),
        r matches Some((header, data)) ==> udp_header_of(payload@, header) && data@
            == payload@.subrange(8, udp_end(payload@)),
{
    if payload.len() < UDP_HEADER_SIZE {
        return None;
    }
    let length: u16 = get_be16(payload, 4);
    let sum: u16 = get_be16(payload, 6);
    let len: usize = if length as usize <= payload.len() {
        length as usize
    } else {
        payload.len()
    };
    if len < UDP_HEADER_SIZE {
        return None;
    }
    let datagram = slice_subrange(payload, 0, len);
    proof {
        assert(datagram@ =~= payload@.take(len as int));
        lemma_transport_sum_bounds(src_ip@, dest_ip@, IP_PROTOCOL_UDP, datagram@);
    }
    if sum != 0 && !valid_udp_checksum(src_ip, dest_ip, datagram) {
        return None;
    }
    let header = UdpHeader {
        src_port: get_be16(payload, 0),
        dest_port: get_be16(payload, 2),
        length,
        checksum: sum,
    };
    Some((header, slice_subrange(payload, UDP_HEADER_SIZE, len)))
}

pub fn build_udp_frame(
    local_mac: MacAddress,
    remote_mac: MacAddress,
    local_ip: Ipv4Address,
    remote_ip: Ipv4Address,
    local_port: u16,
    remote_port: u16,
    payload: &[u8],
) -> (r: Vec<u8>)
    requires
        payload.len() + 42 <= usize::MAX,
        transport_sum(
            local_ip@,
            remote_ip@,
            IP_PROTOCOL_UDP,
            udp_datagram(local_port, remote_port, 0, payload@),
        ) <= u32::MAX,
    ensures
        r@ == ipv4_frame(
            local_mac@,
            remote_mac@,
            local_ip@,
            remote_ip@,
            IP_PROTOCOL_UDP,
            local_port,
            0x4000,
            64,
            udp_sealed(local_ip@, remote_ip@, local_port, remote_port, payload@),
        ),
{
    let udp_len: usize = UDP_HEADER_SIZE + payload.len();
    let mut datagram: Vec<u8> = Vec::with_capacity(udp_len);
    push_be16(&mut datagram, local_port);
    push_be16(&mut datagram, remote_port);
    push_be16(&mut datagram, (udp_len % 65536) as u16);
    push_be16(&mut datagram, 0);
    push_all(&mut datagram, payload);
    assert(datagram@ =~= udp_datagram(local_port, remote_port, 0, payload@));
    let computed: u16 = udp_checksum(local_ip, remote_ip, datagram.as_slice());
    let sum: u16 = if computed == 0 {
        0xffff
    } else {
        computed
    };
    put_vec(&mut datagram, 6, [(sum / 256) as u8, (sum % 256) as u8].as_slice());
    assert(datagram@ =~= udp_sealed(local_ip@, remote_ip@, local_port, remote_port, payload@));
    build_ipv4_packet(
        local_mac,
        remote_mac,
        local_ip,
        remote_ip,
        IP_PROTOCOL_UDP,
        local_port,
        64,
        datagram.as_slice(),
    )
}

/// The name `example.com` in DNS label form.
pub open spec fn example_com() -> Seq<u8> {
    seq![
        7u8,
        101u8,
        120u8,
        97u8,
        109u8,
        112u8,
        108u8,
        101u8,
        3u8,
        99u8,
        111u8,
        109u8,
        0u8,
    ]
}

/// The probe that asks a name server for the address of `example.com`.
pub open spec fn dns_probe() -> Seq<u8> {
    bytes::be16_bytes(0x564e) + bytes::be16_bytes(0x0100) + bytes::be16_bytes(1) + bytes::zeros(6) + example_com() + bytes::be16_bytes(
        1,
    ) + bytes::be16_bytes(1)
}

/// The DNS probe from port 49152, sent without a UDP checksum.
pub fn udp_dns_query(
    local_mac: MacAddress,
    gateway_mac: MacAddress,
    local_ip: Ipv4Address,
    dns_ip: Ipv4Address,
) -> (r: [u8; 71])
    ensures
        r@ == ipv4_frame(
            local_mac@,
            gateway_mac@,
            local_ip@,
            dns_ip@,
            IP_PROTOCOL_UDP,
            0x5650,
            0,
            64,
            udp_datagram(49_152, 53, 0, dns_probe()),
        ),
{
    let mut datagram: Vec<u8> = Vec::with_capacity(37);
    push_be16(&mut datagram, 49_152);
    push_be16(&mut datagram, 53);
    push_be16(&mut datagram, 37);
    push_be16(&mut datagram, 0);
    push_be16(&mut datagram, 0x564e);
    push_be16(&mut datagram, 0x0100);
    push_be16(&mut datagram, 1);
    push_all(&mut datagram, [0u8, 0, 0, 0, 0, 0].as_slice());
    let name: [u8; 13] = [7, 101, 120, 97, 109, 112, 108, 101, 3, 99, 111, 109, 0];
    assert(name@ =~= example_com());
    push_all(&mut datagram, name.as_slice());
    push_be16(&mut datagram, 1);
    push_be16(&mut datagram, 1);
    assert(datagram@ =~= udp_datagram(49_152, 53, 0, dns_probe()));
    let built = ipv4_frame_bytes(
        &local_mac,
        &gateway_mac,
        &local_ip,
        &dns_ip,
        IP_PROTOCOL_UDP,
        0x5650,
        0,
        64,
        datagram.as_slice(),
    );
    let mut frame: [u8; 71] = [0u8; 71];
    put(&mut frame, 0, built.as_slice());
    assert(frame@ =~= built@);
    frame
}

/// Whether `frame` answers the DNS probe that `local` sent to `dns`.
pub open spec fn dns_probe_reply(frame: Seq<u8>, local: Seq<u8>, dns: Seq<u8>) -> bool {
    &&& frame.len() >= 54
    &&& bytes::be16_at(frame, 12) == ETHERTYPE_IPV4
    &&& frame[14] / 16 == 4
    &&& frame[23] == IP_PROTOCOL_UDP
    &&& frame.subrange(26, 30) == dns
    &&& frame.subrange(30, 34) == local
    &&& checksum_ok(frame.subrange(14, 34))
    &&& 20 <= bytes::be16_at(frame, 38) <= frame.len() - 34
    &&& bytes::be16_at(frame, 34) == 53
    &&& bytes::be16_at(frame, 36) == 49_152
    &&& bytes::be16_at(frame, 42) == 0x564e
    &&& bytes::be16_at(frame, 44) >= 0x8000
}

pub fn is_udp_dns_reply(frame: &[u8], local_ip: Ipv4Address, dns_ip: Ipv4Address) -> (r: bool)
    ensures
        r == dns_probe_reply(frame@, local_ip@, dns_ip@),
{
    if frame.len() < 54 {
        return false;
    }
    let header = slice_subrange(frame, 14, 34);
    proof {
        lemma_word_sum_bounds(header@);
    }
    if get_be16(frame, 12) != ETHERTYPE_IPV4 || frame[14] / 16 != 4 || frame[23] != IP_PROTOCOL_UDP
        || !holds_at(frame, 26, dns_ip.as_slice()) || !holds_at(frame, 30, local_ip.as_slice())
        || !valid_checksum(header) {
        return false;
    }
    let udp_length: usize = get_be16(frame, 38) as usize;
    if udp_length < 20 || frame.len() < 34 + udp_length {
        return false;
    }
    get_be16(frame, 34) == 53 && get_be16(frame, 36) == 49_152 && get_be16(frame, 42) == 0x564e
        && get_be16(frame, 44) >= 0x8000
}

// ---------------------------------------------------------------------------
// TCP
// ---------------------------------------------------------------------------
/// A TCP segment without options, with the given checksum field.
pub open spec fn tcp_bytes(
    src_port: u16,
    dst_port: u16,
    sequence: u32,
    acknowledgement: u32,
    flags: u8,
    window: u16,
    sum: u16,
    payload: Seq<u8>,
) -> Seq<u8> {
    bytes::be16_bytes(src_port) + bytes::be16_bytes(dst_port) + bytes::be32_bytes(sequence) + bytes::be32_bytes(acknowledgement)
        + seq![0x50u8, flags] + bytes::be16_bytes(window) + bytes::be16_bytes(sum) + bytes::be16_bytes(0) + payload
}

/// A TCP segment without options, with its checksum between `src` and `dst`.
pub open spec fn tcp_sealed(
    src: Seq<u8>,
    dst: Seq<u8>,
    src_port: u16,
    dst_port: u16,
    sequence: u32,
    acknowledgement: u32,
    flags: u8,
    window: u16,
    payload: Seq<u8>,
) -> Seq<u8> {
    tcp_bytes(
        src_port,
        dst_port,
        sequence,
        acknowledgement,
        flags,
        window,
        never_zero(
            transport_checksum(
                src,
                dst,
                IP_PROTOCOL_TCP,
                tcp_bytes(
                    src_port,
                    dst_port,
                    sequence,
                    acknowledgement,
                    flags,
                    window,
                    0,
                    payload,
                ),
            ),
        ),
        payload,
    )
}

/// The frame that carries a TCP segment.
pub open spec fn tcp_frame(
    src_mac: Seq<u8>,
    dst_mac: Seq<u8>,
    src: Seq<u8>,
    dst: Seq<u8>,
    src_port: u16,
    dst_port: u16,
    sequence: u32,
    acknowledgement: u32,
    flags: u8,
    window: u16,
    payload: Seq<u8>,
) -> Seq<u8> {
    ipv4_frame(
        src_mac,
        dst_mac,
        src,
        dst,
        IP_PROTOCOL_TCP,
        (sequence % 65536) as u16,
        0x4000,
        64,
        tcp_sealed(
            src,
            dst,
            src_port,
            dst_port,
            sequence,
            acknowledgement,
            flags,
            window,
            payload,
        ),
    )
}

/// The length in bytes of the header that starts `segment`.
pub open spec fn tcp_header_length(segment: Seq<u8>) -> int {
    (segment[12] / 16) * 4
}

/// Whether the header of `segment` lies inside it.
pub open spec fn tcp_header_fits(segment: Seq<u8>) -> bool {
    &&& segment.len() >= TCP_HEADER_SIZE
    &&& TCP_HEADER_SIZE <= tcp_header_length(segment) <= segment.len()
}

/// Whether `segment` is a valid TCP segment from `src` to `dst`.
pub open spec fn is_tcp(segment: Seq<u8>, src: Seq<u8>, dst: Seq<u8>) -> bool {
    tcp_header_fits(segment) && transport_ok(src, dst, IP_PROTOCOL_TCP, segment)
}

/// Whether `header` holds the fields of the TCP header that starts `segment`.
pub open spec fn tcp_header_of(segment: Seq<u8>, header: TcpHeader) -> bool {
    &&& header.src_port == bytes::be16_at(segment, 0)
    &&& header.dest_port == bytes::be16_at(segment, 2)
    &&& header.sequence == bytes::be32_at(segment, 4)
    &&& header.acknowledgement == bytes::be32_at(segment, 8)
    &&& header.data_offset == tcp_header_length(segment)
    &&& header.flags == segment[13]
    &&& header.window_size == bytes::be16_at(segment, 14)
    &&& header.checksum == bytes::be16_at(segment, 16)
    &&& header.urgent_pointer == bytes::be16_at(segment, 18)
}

pub fn parse_tcp<'a>(
    payload: &'a [u8],
    src_ip: Ipv4Address,
    dest_ip: Ipv4Address,
) -> (r: Option<(TcpHeader, &'a [u8])>)
    requires
        tcp_header_fits(payload@) ==> transport_sum(
            src_ip@,
            dest_ip@,
            IP_PROTOCOL_TCP,
            payload@,
        ) <= u32::MAX,
    ensures
        r is Some <==> is_tcp(payload@, src_ip@, dest_ip@),
        r matches Some((header, data)) ==> tcp_header_of(payload@, header) && data@ == payload@.skip(
            tcp_header_length(payload@),
        ),
{
    if payload.len() < TCP_HEADER_SIZE {
        return None;
    }
    let data_offset: usize = ((payload[12] / 16) as usize) * 4;
    if data_offset < TCP_HEADER_SIZE || payload.len() < data_offset {
        return None;
    }
    if !valid_tcp_checksum(src_ip, dest_ip, payload) {
        return None;
    }
    let header = TcpHeader {
        src_port: get_be16(payload, 0),
        dest_port: get_be16(payload, 2),
        sequence: get_be32(payload, 4),
        acknowledgement: get_be32(payload, 8),
        data_offset,
        flags: payload[13],
        window_size: get_be16(payload, 14),
        checksum: get_be16(payload, 16),
        urgent_pointer: get_be16(payload, 18),
    };
    let data = slice_subrange(payload, data_offset, payload.len());
    assert(data@ =~= payload@.skip(data_offset as int));
    Some((header, data))
}

pub fn build_tcp_frame(
    local_mac: MacAddress,
    remote_mac: MacAddress,
    local_ip: Ipv4Address,
    remote_ip: Ipv4Address,
    local_port: u16,
    remote_port: u16,
    sequence: u32,
    acknowledgement: u32,
    flags: u8,
    window_size: u16,
    payload: &[u8],
) -> (r: Vec<u8>)
    requires
        payload.len() + 54 <= usize::MAX,
        transport_sum(
            local_ip@,
            remote_ip@,
            IP_PROTOCOL_TCP,
            tcp_bytes(
                local_port,
                remote_port,
                sequence,
                acknowledgement,
                flags,
                window_size,
                0,
                payload@,
            ),
        ) <= u32::MAX,
    ensures
        r@ == tcp_frame(
            local_mac@,
            remote_mac@,
            local_ip@,
            remote_ip@,
            local_port,
            remote_port,
            sequence,
            acknowledgement,
            flags,
            window_size,
            payload@,
        ),
{
    let mut segment: Vec<u8> = Vec::with_capacity(TCP_HEADER_SIZE + payload.len());
    push_be16(&mut segment, local_port);
    push_be16(&mut segment, remote_port);
    push_be32(&mut segment, sequence);
    push_be32(&mut segment, acknowledgement);
    segment.push(0x50);
    segment.push(flags);
    push_be16(&mut segment, window_size);
    push_be16(&mut segment, 0);
    push_be16(&mut segment, 0);
    push_all(&mut segment, payload);
    assert(segment@ =~= tcp_bytes(
        local_port,
        remote_port,
        sequence,
        acknowledgement,
        flags,
        window_size,
        0,
        payload@,
    ));
    let computed: u16 = tcp_checksum(local_ip, remote_ip, segment.as_slice());
    let sum: u16 = if computed == 0 {
        0xffff
    } else {
        computed
    };
    put_vec(&mut segment, 16, [(sum / 256) as u8, (sum % 256) as u8].as_slice());
    assert(segment@ =~= tcp_sealed(
        local_ip@,
        remote_ip@,
        local_port,
        remote_port,
        sequence,
        acknowledgement,
        flags,
        window_size,
        payload@,
    ));
    build_ipv4_packet(
        local_mac,
        remote_mac,
        local_ip,
        remote_ip,
        IP_PROTOCOL_TCP,
        (sequence % 65536) as u16,
        64,
        segment.as_slice(),
    )
}

/// A TCP frame with a full receive window, in a buffer of fixed capacity.
/// A payload that does not fit is refused.
pub fn tcp_segment(
    local_mac: MacAddress,
    remote_mac: MacAddress,
    local_ip: Ipv4Address,
    remote_ip: Ipv4Address,
    local_port: u16,
    remote_port: u16,
    sequence: u32,
    acknowledgement: u32,
    flags: u8,
    payload: &[u8],
) -> (r: Option<TcpFrame>)
    ensures
        r is Some <==> payload.len() <= MAX_TCP_PAYLOAD,
        r matches Some(frame) ==> frame.wf() && frame@ == tcp_frame(
            local_mac@,
            remote_mac@,
            local_ip@,
            remote_ip@,
            local_port,
            remote_port,
            sequence,
            acknowledgement,
            flags,
            u16::MAX,
            payload@,
        ),
{
    if payload.len() > MAX_TCP_PAYLOAD {
        return None;
    }
    proof {
        lemma_transport_sum_bounds(
            local_ip@,
            remote_ip@,
            IP_PROTOCOL_TCP,
            tcp_bytes(
                local_port,
                remote_port,
                sequence,
                acknowledgement,
                flags,
                u16::MAX,
                0,
                payload@,
            ),
        );
    }
    let built = build_tcp_frame(
        local_mac,
        remote_mac,
        local_ip,
        remote_ip,
        local_port,
        remote_port,
        sequence,
        acknowledgement,
        flags,
        u16::MAX,
        payload,
    );
    let length: usize = built.len();
    let mut bytes: [u8; 1514] = [0u8; 1514];
    put(&mut bytes, 0, built.as_slice());
    assert(bytes@.take(length as int) =~= built@);
    Some(TcpFrame { bytes, length })
}

/// Whether `frame` is a valid TCP segment of one connection, seen from its local end.
pub open spec fn is_tcp_reply(
    frame: Seq<u8>,
    local_mac: Seq<u8>,
    remote_mac: Seq<u8>,
    local: Seq<u8>,
    remote: Seq<u8>,
    local_port: u16,
    remote_port: u16,
) -> bool {
    let packet = frame.skip(14);
    let header = ipv4_header_length(packet);
    let total = bytes::be16_at(packet, 2);
    let segment = packet.subrange(header, total);
    &&& frame.len() >= 54
    &&& frame.subrange(0, 6) == local_mac
    &&& frame.subrange(6, 12) == remote_mac
    &&& bytes::be16_at(frame, 12) == ETHERTYPE_IPV4
    &&& packet[0] / 16 == 4
    &&& packet[9] == IP_PROTOCOL_TCP
    &&& packet.subrange(12, 16) == remote
    &&& packet.subrange(16, 20) == local
    &&& header >= 20
    &&& header + 20 <= total <= packet.len()
    &&& checksum_ok(packet.take(header))
    &&& bytes::be16_at(segment, 0) == remote_port
    &&& bytes::be16_at(segment, 2) == local_port
    &&& is_tcp(segment, remote, local)
}

/// The TCP segment that an IPv4 frame carries.
pub open spec fn tcp_part(frame: Seq<u8>) -> Seq<u8> {
    let packet = frame.skip(14);
    packet.subrange(ipv4_header_length(packet), bytes::be16_at(packet, 2))
}

pub fn tcp_reply<'a>(
    frame: &'a [u8],
    local_mac: MacAddress,
    remote_mac: MacAddress,
    local_ip: Ipv4Address,
    remote_ip: Ipv4Address,
    local_port: u16,
    remote_port: u16,
) -> (r: Option<TcpSegment<'a>>)
    ensures
        r is Some <==> is_tcp_reply(
            frame@,
            local_mac@,
            remote_mac@,
            local_ip@,
            remote_ip@,
            local_port,
            remote_port,
        ),
        r matches Some(segment) ==> {
            &&& segment.sequence == bytes::be32_at(tcp_part(frame@), 4)
            &&& segment.acknowledgement == bytes::be32_at(tcp_part(frame@), 8)
            &&& segment.flags == tcp_part(frame@)[13]
            &&& segment.payload@ == tcp_part(frame@).skip(tcp_header_length(tcp_part(frame@)))
        },
{
    if frame.len() < 54 {
        return None;
    }
    let packet = slice_subrange(frame, 14, frame.len());
    assert(packet@ =~= frame@.skip(14));
    if !holds_at(frame, 0, local_mac.as_slice()) || !holds_at(frame, 6, remote_mac.as_slice())
        || get_be16(frame, 12) != ETHERTYPE_IPV4 || packet[0] / 16 != 4 || packet[9]
        != IP_PROTOCOL_TCP || !holds_at(packet, 12, remote_ip.as_slice()) || !holds_at(
        packet,
        16,
        local_ip.as_slice(),
    ) {
        return None;
    }
    let header_length: usize = (packet[0] % 16) as usize * 4;
    let total_length: usize = get_be16(packet, 2) as usize;
    if header_length < IPV4_HEADER_SIZE || total_length < header_length + TCP_HEADER_SIZE
        || packet.len() < total_length {
        return None;
    }
    let header_bytes = slice_subrange(packet, 0, header_length);
    let segment = slice_subrange(packet, header_length, total_length);
    proof {
        assert(header_bytes@ =~= packet@.take(header_length as int));
        lemma_word_sum_bounds(header_bytes@);
        lemma_transport_sum_bounds(remote_ip@, local_ip@, IP_PROTOCOL_TCP, segment@);
    }
    if !valid_checksum(header_bytes) {
        return None;
    }
    let tcp_length: usize = (segment[12] / 16) as usize * 4;
    if tcp_length < TCP_HEADER_SIZE || tcp_length > segment.len() || get_be16(segment, 0)
        != remote_port || get_be16(segment, 2) != local_port || !valid_tcp_checksum(
        remote_ip,
        local_ip,
        segment,
    ) {
        return None;
    }
    let payload = slice_subrange(segment, tcp_length, segment.len());
    assert(payload@ =~= segment@.skip(tcp_length as int));
    Some(
        TcpSegment {
            sequence: get_be32(segment, 4),
            acknowledgement: get_be32(segment, 8),
            flags: segment[13],
            payload,
        },
    )
}

// ---------------------------------------------------------------------------
// Laws: what a builder writes, the matching parser reads
// ---------------------------------------------------------------------------
/// An Ethernet frame gives back its addresses, type and payload, and is never
/// too short to be read.
pub proof fn law_ethernet_round_trip(
    dst: Seq<u8>,
    src: Seq<u8>,
    ethertype: u16,
    payload: Seq<u8>,
    header: EthernetHeader,
)
    requires
        dst.len() == 6,
        src.len() == 6,
        eth_header_of(eth_frame(dst, src, ethertype, payload), header),
    ensures
        header.dest_mac@ == dst,
        header.src_mac@ == src,
        header.ethertype == ethertype,
        eth_frame(dst, src, ethertype, payload).skip(14) == payload,
        eth_frame(dst, src, ethertype, payload).len() == 14 + payload.len(),
{
    let frame = eth_frame(dst, src, ethertype, payload);
    assert(frame.subrange(0, 6) =~= dst);
    assert(frame.subrange(6, 12) =~= src);
    assert(frame.skip(14) =~= payload);
}

/// An ARP packet is recognised and gives back its fields.
pub proof fn law_arp_round_trip(
    opcode: u16,
    sender_mac: Seq<u8>,
    sender_ip: Seq<u8>,
    target_mac: Seq<u8>,
    target_ip: Seq<u8>,
    packet: ArpPacket,
)
    requires
        sender_mac.len() == 6,
        sender_ip.len() == 4,
        target_mac.len() == 6,
        target_ip.len() == 4,
        arp_of(arp_body(opcode, sender_mac, sender_ip, target_mac, target_ip), packet),
    ensures
        is_arp(arp_body(opcode, sender_mac, sender_ip, target_mac, target_ip)),
        packet.opcode == opcode,
        packet.sender_mac@ == sender_mac,
        packet.sender_ip@ == sender_ip,
        packet.target_mac@ == target_mac,
        packet.target_ip@ == target_ip,
{
    let body = arp_body(opcode, sender_mac, sender_ip, target_mac, target_ip);
    assert(body.subrange(8, 14) =~= sender_mac);
    assert(body.subrange(14, 18) =~= sender_ip);
    assert(body.subrange(18, 24) =~= target_mac);
    assert(body.subrange(24, 28) =~= target_ip);
}

/// An ARP reply is accepted by the host it is addressed to, which learns the
/// hardware address of the sender.
pub proof fn law_arp_reply_accepted(
    sender_mac: Seq<u8>,
    sender_ip: Seq<u8>,
    target_mac: Seq<u8>,
    target_ip: Seq<u8>,
)
    requires
        sender_mac.len() == 6,
        sender_ip.len() == 4,
        target_mac.len() == 6,
        target_ip.len() == 4,
    ensures
        ({
            let frame = eth_frame(
                target_mac,
                sender_mac,
                ETHERTYPE_ARP,
                arp_body(ARP_REPLY, sender_mac, sender_ip, target_mac, target_ip),
            );
            is_arp_reply(frame, target_ip, sender_ip) && frame.subrange(22, 28) == sender_mac
        }),
{
    let frame = eth_frame(
        target_mac,
        sender_mac,
        ETHERTYPE_ARP,
        arp_body(ARP_REPLY, sender_mac, sender_ip, target_mac, target_ip),
    );
    assert(frame.subrange(22, 28) =~= sender_mac);
    assert(frame.subrange(28, 32) =~= sender_ip);
    assert(frame.subrange(38, 42) =~= target_ip);
}

proof fn lemma_sealed_header(
    total: u16,
    id: u16,
    flags_fragment: u16,
    ttl: u8,
    protocol: u8,
    src: Seq<u8>,
    dst: Seq<u8>,
)
    requires
        src.len() == 4,
        dst.len() == 4,
    ensures
        checksum_ok(ipv4_sealed_header(total, id, flags_fragment, ttl, protocol, src, dst)),
{
    let a = seq![0x45u8, 0u8] + bytes::be16_bytes(total) + bytes::be16_bytes(id) + bytes::be16_bytes(flags_fragment)
        + seq![ttl, protocol];
    let b = src + dst;
    let zeroed = ipv4_header(total, id, flags_fragment, ttl, protocol, 0, src, dst);
    let sum = checksum_of(zeroed);
    assert(a + bytes::be16_bytes(0) + b =~= zeroed);
    lemma_checksum_seals(a, b);
    assert(a + bytes::be16_bytes(sum) + b =~= ipv4_header(
        total,
        id,
        flags_fragment,
        ttl,
        protocol,
        sum,
        src,
        dst,
    ));
}

/// An IPv4 packet that fits its length field is accepted and gives back its
/// addresses, protocol and payload.
pub proof fn law_ipv4_round_trip(
    id: u16,
    flags_fragment: u16,
    ttl: u8,
    protocol: u8,
    src: Seq<u8>,
    dst: Seq<u8>,
    payload: Seq<u8>,
)
    requires
        src.len() == 4,
        dst.len() == 4,
        20 + payload.len() <= 65535,
    ensures
        ({
            let packet = ipv4_sealed_header(
                (20 + payload.len()) as u16,
                id,
                flags_fragment,
                ttl,
                protocol,
                src,
                dst,
            ) + payload;
            &&& is_ipv4(packet)
            &&& packet.subrange(12, 16) == src
            &&& packet.subrange(16, 20) == dst
            &&& packet[8] == ttl
            &&& packet[9] == protocol
            &&& bytes::be16_at(packet, 2) == 20 + payload.len()
            &&& bytes::be16_at(packet, 4) == id
            &&& bytes::be16_at(packet, 6) == flags_fragment
            &&& ipv4_header_length(packet) == 20
            &&& packet.subrange(20, ipv4_end(packet)) == payload
        }),
{
    let total = (20 + payload.len()) as u16;
    let header = ipv4_sealed_header(total, id, flags_fragment, ttl, protocol, src, dst);
    let packet = header + payload;
    lemma_sealed_header(total, id, flags_fragment, ttl, protocol, src, dst);
    assert(packet.take(20) =~= header);
    assert(packet.subrange(12, 16) =~= src);
    assert(packet.subrange(16, 20) =~= dst);
    assert(packet.subrange(20, packet.len() as int) =~= payload);
}

/// An ICMP echo message is accepted and gives back its fields and data.
pub proof fn law_echo_round_trip(msg_type: u8, id: u16, sequence: u16, data: Seq<u8>)
    ensures
        ({
            let message = sealed_echo_message(msg_type, id, sequence, data);
            &&& is_control_message(message)
            &&& message[0] == msg_type
            &&& message[1] == 0
            &&& bytes::be16_at(message, 4) == id
            &&& bytes::be16_at(message, 6) == sequence
            &&& message.skip(8) == data
        }),
{
    let a = seq![msg_type, 0u8];
    let b = bytes::be16_bytes(id) + bytes::be16_bytes(sequence) + data;
    let zeroed = echo_message(msg_type, 0, id, sequence, data);
    let message = sealed_echo_message(msg_type, id, sequence, data);
    assert(a + bytes::be16_bytes(0) + b =~= zeroed);
    lemma_checksum_seals(a, b);
    assert(a + bytes::be16_bytes(checksum_of(zeroed)) + b =~= message);
    assert(message.skip(8) =~= data);
}

/// The frame of an echo reply is recognised by the host that asked.
pub proof fn law_echo_reply_accepted(
    src_mac: Seq<u8>,
    dst_mac: Seq<u8>,
    src: Seq<u8>,
    dst: Seq<u8>,
    id: u16,
    sequence: u16,
    data: Seq<u8>,
)
    requires
        src_mac.len() == 6,
        dst_mac.len() == 6,
        src.len() == 4,
        dst.len() == 4,
        28 + data.len() <= 65535,
    ensures
        echo_reply_frame(
            ipv4_frame(
                src_mac,
                dst_mac,
                src,
                dst,
                IP_PROTOCOL_ICMP,
                id,
                0x4000,
                64,
                sealed_echo_message(ICMP_ECHO_REPLY, id, sequence, data),
            ),
            dst,
            src,
            id,
        ),
{
    let message = sealed_echo_message(ICMP_ECHO_REPLY, id, sequence, data);
    let frame = ipv4_frame(
        src_mac,
        dst_mac,
        src,
        dst,
        IP_PROTOCOL_ICMP,
        id,
        0x4000,
        64,
        message,
    );
    law_echo_round_trip(ICMP_ECHO_REPLY, id, sequence, data);
    law_ipv4_round_trip(id, 0x4000, 64, IP_PROTOCOL_ICMP, src, dst, message);
    lemma_ipv4_frame_packet(src_mac, dst_mac, src, dst, IP_PROTOCOL_ICMP, id, 0x4000, 64, message);
    let packet = frame.skip(14);
    assert(packet.subrange(20, packet.len() as int) =~= message);
    assert(packet[20] == message[0] && packet[21] == message[1] && packet[24] == message[4]
        && packet[25] == message[5]);
}

pub(crate) proof fn lemma_ipv4_frame_packet(
    src_mac: Seq<u8>,
    dst_mac: Seq<u8>,
    src: Seq<u8>,
    dst: Seq<u8>,
    protocol: u8,
    id: u16,
    flags_fragment: u16,
    ttl: u8,
    payload: Seq<u8>,
)
    requires
        src_mac.len() == 6,
        dst_mac.len() == 6,
        src.len() == 4,
        dst.len() == 4,
        20 + payload.len() <= 65535,
    ensures
        ({
            let frame = ipv4_frame(
                src_mac,
                dst_mac,
                src,
                dst,
                protocol,
                id,
                flags_fragment,
                ttl,
                payload,
            );
            &&& frame.skip(14) == ipv4_sealed_header(
                (20 + payload.len()) as u16,
                id,
                flags_fragment,
                ttl,
                protocol,
                src,
                dst,
            ) + payload
            &&& frame.len() == 34 + payload.len()
            &&& frame.subrange(0, 6) == dst_mac
            &&& frame.subrange(6, 12) == src_mac
            &&& bytes::be16_at(frame, 12) == ETHERTYPE_IPV4
            &&& checksum_ok(frame.skip(14).take(20))
        }),
{
    let total = (20 + payload.len()) as u16;
    let header = ipv4_sealed_header(total, id, flags_fragment, ttl, protocol, src, dst);
    let frame = ipv4_frame(
        src_mac,
        dst_mac,
        src,
        dst,
        protocol,
        id,
        flags_fragment,
        ttl,
        payload,
    );
    lemma_sealed_header(total, id, flags_fragment, ttl, protocol, src, dst);
    assert(frame.skip(14) =~= header + payload);
    assert(frame.skip(14).take(20) =~= header);
    assert(frame.subrange(0, 6) =~= dst_mac);
    assert(frame.subrange(6, 12) =~= src_mac);
}

/// A UDP datagram that fits its length field is accepted and gives back its
/// ports and payload.
pub proof fn law_udp_round_trip(
    src: Seq<u8>,
    dst: Seq<u8>,
    src_port: u16,
    dst_port: u16,
    payload: Seq<u8>,
)
    requires
        8 + payload.len() <= 65535,
    ensures
        ({
            let datagram = udp_sealed(src, dst, src_port, dst_port, payload);
            &&& is_udp(datagram, src, dst)
            &&& bytes::be16_at(datagram, 0) == src_port
            &&& bytes::be16_at(datagram, 2) == dst_port
            &&& bytes::be16_at(datagram, 6) != 0
            &&& datagram.subrange(8, udp_end(datagram)) == payload
        }),
{
    let a = bytes::be16_bytes(src_port) + bytes::be16_bytes(dst_port) + bytes::be16_bytes((8 + payload.len()) as u16);
    let zeroed = udp_datagram(src_port, dst_port, 0, payload);
    let sum = never_zero(transport_checksum(src, dst, IP_PROTOCOL_UDP, zeroed));
    let datagram = udp_sealed(src, dst, src_port, dst_port, payload);
    assert(a + bytes::be16_bytes(0) + payload =~= zeroed);
    lemma_transport_seals(src, dst, IP_PROTOCOL_UDP, a, payload);
    assert(a + bytes::be16_bytes(sum) + payload =~= datagram);
    assert(datagram.take(datagram.len() as int) =~= datagram);
    assert(datagram.subrange(8, datagram.len() as int) =~= payload);
}

/// The frame of a UDP datagram gives back addresses, ports and payload, layer
/// by layer.
pub proof fn law_udp_frame_round_trip(
    src_mac: Seq<u8>,
    dst_mac: Seq<u8>,
    src: Seq<u8>,
    dst: Seq<u8>,
    src_port: u16,
    dst_port: u16,
    id: u16,
    payload: Seq<u8>,
)
    requires
        src_mac.len() == 6,
        dst_mac.len() == 6,
        src.len() == 4,
        dst.len() == 4,
        28 + payload.len() <= 65535,
    ensures
        ({
            let frame = ipv4_frame(
                src_mac,
                dst_mac,
                src,
                dst,
                IP_PROTOCOL_UDP,
                id,
                0x4000,
                64,
                udp_sealed(src, dst, src_port, dst_port, payload),
            );
            let packet = frame.skip(14);
            let datagram = packet.subrange(ipv4_header_length(packet), ipv4_end(packet));
            &&& frame.len() >= 14
            &&& bytes::be16_at(frame, 12) == ETHERTYPE_IPV4
            &&& is_ipv4(packet)
            &&& packet[9] == IP_PROTOCOL_UDP
            &&& packet.subrange(12, 16) == src
            &&& packet.subrange(16, 20) == dst
            &&& is_udp(datagram, src, dst)
            &&& bytes::be16_at(datagram, 0) == src_port
            &&& bytes::be16_at(datagram, 2) == dst_port
            &&& datagram.subrange(8, udp_end(datagram)) == payload
        }),
{
    let datagram = udp_sealed(src, dst, src_port, dst_port, payload);
    assert(datagram.len() == 8 + payload.len());
    law_udp_round_trip(src, dst, src_port, dst_port, payload);
    law_ipv4_round_trip(id, 0x4000, 64, IP_PROTOCOL_UDP, src, dst, datagram);
    lemma_ipv4_frame_packet(src_mac, dst_mac, src, dst, IP_PROTOCOL_UDP, id, 0x4000, 64, datagram);
}

/// A TCP segment is accepted and gives back its ports, numbers, flags and payload.
pub proof fn law_tcp_round_trip(
    src: Seq<u8>,
    dst: Seq<u8>,
    src_port: u16,
    dst_port: u16,
    sequence: u32,
    acknowledgement: u32,
    flags: u8,
    window: u16,
    payload: Seq<u8>,
)
    ensures
        ({
            let segment = tcp_sealed(
                src,
                dst,
                src_port,
                dst_port,
                sequence,
                acknowledgement,
                flags,
                window,
                payload,
            );
            &&& is_tcp(segment, src, dst)
            &&& bytes::be16_at(segment, 0) == src_port
            &&& bytes::be16_at(segment, 2) == dst_port
            &&& bytes::be32_at(segment, 4) == sequence
            &&& bytes::be32_at(segment, 8) == acknowledgement
            &&& segment[13] == flags
            &&& bytes::be16_at(segment, 14) == window
            &&& tcp_header_length(segment) == 20
            &&& segment.skip(20) == payload
            &&& segment.len() == 20 + payload.len()
        }),
{
    let a = bytes::be16_bytes(src_port) + bytes::be16_bytes(dst_port) + bytes::be32_bytes(sequence) + bytes::be32_bytes(
        acknowledgement,
    ) + seq![0x50u8, flags] + bytes::be16_bytes(window);
    let b = bytes::be16_bytes(0) + payload;
    let zeroed = tcp_bytes(
        src_port,
        dst_port,
        sequence,
        acknowledgement,
        flags,
        window,
        0,
        payload,
    );
    let sum = never_zero(transport_checksum(src, dst, IP_PROTOCOL_TCP, zeroed));
    let segment = tcp_sealed(
        src,
        dst,
        src_port,
        dst_port,
        sequence,
        acknowledgement,
        flags,
        window,
        payload,
    );
    assert(a + bytes::be16_bytes(0) + b =~= zeroed);
    lemma_transport_seals(src, dst, IP_PROTOCOL_TCP, a, b);
    assert(a + bytes::be16_bytes(sum) + b =~= segment);
    assert(segment.skip(20) =~= payload);
    let ports = bytes::be16_bytes(src_port) + bytes::be16_bytes(dst_port);
    let after_sequence = segment.skip(8);
    let after_acknowledgement = segment.skip(12);
    assert(ports + bytes::be32_bytes(sequence) + after_sequence =~= segment);
    assert(ports + bytes::be32_bytes(sequence) + bytes::be32_bytes(acknowledgement) + after_acknowledgement
        =~= segment);
    bytes::be_round_trip(ports, after_sequence, 0, sequence);
    bytes::be_round_trip(ports + bytes::be32_bytes(sequence), after_acknowledgement, 0, acknowledgement);
    assert(tcp_header_length(segment) == 20);
}

/// The frame that one end of a connection builds is the reply that the other
/// end accepts, with the same numbers, flags and payload.
pub proof fn law_tcp_reply_accepted(
    src_mac: Seq<u8>,
    dst_mac: Seq<u8>,
    src: Seq<u8>,
    dst: Seq<u8>,
    src_port: u16,
    dst_port: u16,
    sequence: u32,
    acknowledgement: u32,
    flags: u8,
    window: u16,
    payload: Seq<u8>,
)
    requires
        src_mac.len() == 6,
        dst_mac.len() == 6,
        src.len() == 4,
        dst.len() == 4,
        40 + payload.len() <= 65535,
    ensures
        ({
            let frame = tcp_frame(
                src_mac,
                dst_mac,
                src,
                dst,
                src_port,
                dst_port,
                sequence,
                acknowledgement,
                flags,
                window,
                payload,
            );
            &&& is_tcp_reply(frame, dst_mac, src_mac, dst, src, dst_port, src_port)
            &&& bytes::be32_at(tcp_part(frame), 4) == sequence
            &&& bytes::be32_at(tcp_part(frame), 8) == acknowledgement
            &&& tcp_part(frame)[13] == flags
            &&& tcp_part(frame).skip(tcp_header_length(tcp_part(frame))) == payload
        }),
{
    let segment = tcp_sealed(
        src,
        dst,
        src_port,
        dst_port,
        sequence,
        acknowledgement,
        flags,
        window,
        payload,
    );
    let id = (sequence % 65536) as u16;
    law_tcp_round_trip(
        src,
        dst,
        src_port,
        dst_port,
        sequence,
        acknowledgement,
        flags,
        window,
        payload,
    );
    law_ipv4_round_trip(id, 0x4000, 64, IP_PROTOCOL_TCP, src, dst, segment);
    lemma_ipv4_frame_packet(src_mac, dst_mac, src, dst, IP_PROTOCOL_TCP, id, 0x4000, 64, segment);
    let frame = tcp_frame(
        src_mac,
        dst_mac,
        src,
        dst,
        src_port,
        dst_port,
        sequence,
        acknowledgement,
        flags,
        window,
        payload,
    );
    assert(tcp_part(frame) =~= segment);
}

/// Two segments that differ in one 16-bit word, by anything but a multiple of
/// 65535, are never both valid: a corrupted word is detected.
pub proof fn law_corrupt_word_detected(
    src: Seq<u8>,
    dst: Seq<u8>,
    protocol: u8,
    a: Seq<u8>,
    b: Seq<u8>,
    x: u16,
    y: u16,
)
    requires
        a.len() % 2 == 0,
        x != y,
        !(x == 0 && y == 65535),
        !(x == 65535 && y == 0),
        transport_ok(src, dst, protocol, a + bytes::be16_bytes(x) + b),
    ensures
        !transport_ok(src, dst, protocol, a + bytes::be16_bytes(y) + b),
{
    lemma_word_sum_around(a, b, x);
    lemma_word_sum_around(a, b, y);
    assert((a + bytes::be16_bytes(x) + b).len() == (a + bytes::be16_bytes(y) + b).len());
    lemma_word_sum_bounds(a);
    lemma_word_sum_bounds(b);
    lemma_word_sum_bounds(src);
    lemma_word_sum_bounds(dst);
    let m = transport_sum(src, dst, protocol, a + bytes::be16_bytes(x) + b);
    let n = transport_sum(src, dst, protocol, a + bytes::be16_bytes(y) + b);
    assert(n == m + (y - x));
    if n % 65535 == 0 {
        assert(m % 65535 == 0);
        assert((n - m) % 65535 == 0) by {
            vstd::arithmetic::div_mod::lemma_sub_mod_noop(n, m, 65535);
        }
    }
}

} // verus!
